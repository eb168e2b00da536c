use clay_codes::encode::{encode, EncodeParams};

fn test_params() -> EncodeParams {
    // (4, 2, 5) configuration
    EncodeParams {
        k: 4,
        m: 2,
        n: 6,
        q: 2,
        t: 3,
        nu: 0,
        sub_chunk_no: 8,
        original_count: 4,
        recovery_count: 2,
    }
}

#[test]
fn test_encode_produces_correct_chunk_count() {
    let params = test_params();
    let data = b"Test data for encoding";
    let chunks = encode(&params, data);
    assert_eq!(chunks.len(), params.n);
}

#[test]
fn test_encode_empty_data() {
    let params = test_params();
    let chunks = encode(&params, &[]);
    assert_eq!(chunks.len(), params.n);
    // All chunks should have same size
    let chunk_size = chunks[0].len();
    for chunk in &chunks {
        assert_eq!(chunk.len(), chunk_size);
    }
}

#[test]
fn test_encode_chunk_alignment() {
    let params = test_params();
    let data = vec![0xABu8; 100];
    let chunks = encode(&params, &data);

    // Chunk size should be divisible by sub_chunk_no
    for chunk in &chunks {
        assert_eq!(chunk.len() % params.sub_chunk_no, 0);
    }
}

#[test]
fn empty_input_gives_chunks_of_two_bytes_per_sub_chunk() {
    let params = test_params();
    let chunks = encode(&params, &[]);
    assert_eq!(chunks.len(), 6);
    for chunk in &chunks {
        assert_eq!(chunk.len(), 16);
        assert!(chunk.iter().all(|b| *b == 0));
    }
}

#[test]
fn chunk_size_grows_in_units_of_two_bytes_per_sub_chunk() {
    let params = test_params();
    // one unit is k * alpha * 2 = 64 bytes
    for (len, chunk_size) in [(1usize, 16usize), (63, 16), (64, 16), (65, 32), (128, 32), (129, 48)]
    {
        let data = vec![7u8; len];
        let chunks = encode(&params, &data);
        for chunk in &chunks {
            assert_eq!(chunk.len(), chunk_size, "for {} bytes", len);
        }
    }
}

#[test]
fn data_chunks_hold_the_data_followed_by_zeros() {
    let params = test_params();
    let data: Vec<u8> = (0..70u8).map(|i| i.wrapping_mul(3).wrapping_add(1)).collect();
    let chunks = encode(&params, &data);
    let mut joined: Vec<u8> = Vec::new();
    for chunk in chunks.iter().take(params.k) {
        joined.extend_from_slice(chunk);
    }
    assert_eq!(joined.len(), 128);
    assert_eq!(&joined[..70], &data[..]);
    assert!(joined[70..].iter().all(|b| *b == 0));
    // the parity is not all zero for data that is not
    assert!(chunks[4].iter().any(|b| *b != 0));
    assert!(chunks[5].iter().any(|b| *b != 0));
}
