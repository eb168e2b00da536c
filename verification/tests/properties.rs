use clay_codes::coords::{get_max_iscore, set_planes_sequential_decoding_order};
use clay_codes::{checked_pow, ClayCode, ClayError};
use std::collections::{BTreeSet, HashMap};

fn all_but(chunks: &[Vec<u8>], erasures: &[usize]) -> HashMap<usize, Vec<u8>> {
    let mut available = HashMap::new();
    for (i, chunk) in chunks.iter().enumerate() {
        if !erasures.contains(&i) {
            available.insert(i, chunk.clone());
        }
    }
    available
}

fn partial_for(clay: &ClayCode, chunks: &[Vec<u8>], lost: usize, available: &[usize]) -> HashMap<usize, Vec<u8>> {
    let size = chunks[0].len() / clay.sub_chunk_no;
    let plan = clay.minimum_to_repair(lost, available).unwrap();
    let mut partial = HashMap::new();
    for (helper, layers) in &plan {
        let mut bytes = Vec::new();
        for z in layers {
            bytes.extend_from_slice(&chunks[*helper][z * size..(z + 1) * size]);
        }
        partial.insert(*helper, bytes);
    }
    partial
}

#[test]
fn checked_pow_exact_values() {
    assert_eq!(checked_pow(2, 10), Some(1024));
    assert_eq!(checked_pow(3, 4), Some(81));
    assert_eq!(checked_pow(4, 4), Some(256));
    assert_eq!(checked_pow(7, 0), Some(1));
    assert_eq!(checked_pow(0, 0), Some(1));
    assert_eq!(checked_pow(0, 5), Some(0));
    assert_eq!(checked_pow(1, usize::MAX), Some(1));
    assert_eq!(checked_pow(2, 63), Some(1usize << 63));
    assert_eq!(checked_pow(2, 64), None);
    assert_eq!(checked_pow(usize::MAX, 1), Some(usize::MAX));
    assert_eq!(checked_pow(usize::MAX, 2), None);
}

#[test]
fn derived_parameters() {
    let clay = ClayCode::new(4, 2, 5).unwrap();
    assert_eq!((clay.n, clay.q, clay.t, clay.nu, clay.sub_chunk_no, clay.beta), (6, 2, 3, 0, 8, 4));
    // shortened: n = 7 is no multiple of q = 2
    let clay = ClayCode::new(4, 3, 5).unwrap();
    assert_eq!((clay.n, clay.q, clay.t, clay.nu, clay.sub_chunk_no, clay.beta), (7, 2, 4, 1, 16, 8));
    let clay = ClayCode::new(9, 3, 11).unwrap();
    assert_eq!((clay.n, clay.q, clay.t, clay.nu, clay.sub_chunk_no, clay.beta), (12, 3, 4, 0, 81, 27));
    let clay = ClayCode::new(1, 2, 2).unwrap();
    assert_eq!((clay.n, clay.q, clay.t, clay.nu, clay.sub_chunk_no, clay.beta), (3, 2, 2, 1, 4, 2));
    let params = clay.encode_params();
    assert_eq!(params.original_count, 2);
    assert_eq!(params.recovery_count, 2);
}

#[test]
fn constructor_errors() {
    assert!(matches!(ClayCode::new(0, 2, 1), Err(ClayError::InvalidParameters(_))));
    assert!(matches!(ClayCode::new(4, 0, 4), Err(ClayError::InvalidParameters(_))));
    assert!(matches!(ClayCode::new(4, 1, 4), Err(ClayError::InvalidParameters(_))));
    assert!(matches!(ClayCode::new(4, 2, 4), Err(ClayError::InvalidParameters(_))));
    assert!(matches!(ClayCode::new(4, 2, 6), Err(ClayError::InvalidParameters(_))));
    assert!(matches!(ClayCode::new(usize::MAX, 2, usize::MAX), Err(ClayError::InvalidParameters(_))));
    // q = 2, t = 66: 2^66 does not fit
    assert!(matches!(ClayCode::new(1, 130, 2), Err(ClayError::Overflow(_))));
    // k + m does not fit
    assert!(matches!(ClayCode::new(usize::MAX, 3, usize::MAX), Err(ClayError::InvalidParameters(_))));
    assert!(matches!(ClayCode::new(usize::MAX - 1, 3, usize::MAX), Err(ClayError::Overflow(_))));
    // more shards than the limit, with a sub-packetization that fits
    assert!(matches!(ClayCode::new(40000, 40000, 79999), Err(ClayError::InvalidParameters(_))));
    assert!(ClayCode::new(129, 129, 257).is_ok());
}

#[test]
fn default_constructor_edges() {
    assert!(matches!(ClayCode::new_default(0, 0), Err(ClayError::InvalidParameters(_))));
    assert!(matches!(ClayCode::new_default(0, 5), Err(ClayError::InvalidParameters(_))));
    assert!(matches!(ClayCode::new_default(3, 1), Err(ClayError::InvalidParameters(_))));
    assert!(matches!(ClayCode::new_default(usize::MAX, 1), Err(ClayError::InvalidParameters(_))));
    assert!(matches!(ClayCode::new_default(usize::MAX, 2), Err(ClayError::Overflow(_))));
    let clay = ClayCode::new_default(3, 2).unwrap();
    assert_eq!((clay.d, clay.q), (4, 2));
}

#[test]
fn bandwidth_ratio_exact() {
    assert_eq!(ClayCode::new(4, 2, 5).unwrap().repair_bandwidth_ratio(), (5, 8));
    assert_eq!(ClayCode::new(9, 3, 11).unwrap().repair_bandwidth_ratio(), (11, 27));
    assert_eq!(ClayCode::new(10, 4, 13).unwrap().repair_bandwidth_ratio(), (13, 40));
    // with one data chunk the repair reads as much as decoding does
    assert_eq!(ClayCode::new(1, 2, 2).unwrap().repair_bandwidth_ratio(), (2, 2));
}

#[test]
fn hello_clay() {
    let clay = ClayCode::new(4, 2, 5).unwrap();
    let data = b"Hello, Clay!";
    let chunks = clay.encode(data);
    assert_eq!(chunks.len(), 6);
    for chunk in &chunks {
        assert_eq!(chunk.len(), 16);
    }
    let decoded = clay.decode(&all_but(&chunks, &[0]), &[0]).unwrap();
    assert_eq!(decoded.len(), 64);
    assert_eq!(&decoded[..12], &data[..]);
    assert!(decoded[12..].iter().all(|b| *b == 0));
    let decoded = clay.decode(&all_but(&chunks, &[0, 5]), &[0, 5]).unwrap();
    assert_eq!(&decoded[..12], &data[..]);

    // repair of node 2 from the five others: four sub-chunks of each
    let plan = clay.minimum_to_repair(2, &[0, 1, 3, 4, 5]).unwrap();
    assert_eq!(plan.len(), 5);
    assert_eq!(plan[0].0, 3);
    for (_, layers) in &plan {
        assert_eq!(layers, &vec![0, 1, 4, 5]);
    }
    let partial = partial_for(&clay, &chunks, 2, &[0, 1, 3, 4, 5]);
    for row in partial.values() {
        assert_eq!(row.len(), 8);
    }
    assert_eq!(clay.repair(2, &partial, 16).unwrap(), chunks[2]);
}

#[test]
fn decoding_undoes_encoding_for_every_erasure_pattern() {
    for (k, m, d) in [(4usize, 2usize, 5usize), (4, 3, 5), (3, 3, 4), (1, 2, 2), (2, 3, 4)] {
        let clay = ClayCode::new(k, m, d).unwrap();
        let data: Vec<u8> = (0..150u32).map(|i| (i * 31 + 7) as u8).collect();
        let chunks = clay.encode(&data);
        let n = clay.n;
        for mask in 0u32..(1 << n) {
            if mask.count_ones() as usize > m {
                continue;
            }
            let erasures: Vec<usize> = (0..n).filter(|i| mask & (1 << i) != 0).collect();
            let decoded = clay.decode(&all_but(&chunks, &erasures), &erasures).unwrap();
            assert_eq!(decoded.len(), k * chunks[0].len());
            assert_eq!(&decoded[..data.len()], &data[..], "({}, {}, {}) without {:?}", k, m, d, erasures);
            assert!(decoded[data.len()..].iter().all(|b| *b == 0));
        }
    }
}

#[test]
fn encoding_again_gives_the_same_chunks() {
    for (k, m, d) in [(4usize, 2usize, 5usize), (4, 3, 5), (2, 3, 4)] {
        let clay = ClayCode::new(k, m, d).unwrap();
        let data: Vec<u8> = (0..100u32).map(|i| (i * 13 + 5) as u8).collect();
        let chunks = clay.encode(&data);
        let decoded = clay.decode(&all_but(&chunks, &[1, k]), &[1, k]).unwrap();
        assert_eq!(clay.encode(&decoded), chunks);
        assert_eq!(clay.encode(&data), chunks);
    }
}

#[test]
fn repair_recovers_every_chunk_from_any_plan() {
    for (k, m, d) in [(4usize, 2usize, 5usize), (4, 3, 5), (4, 3, 6), (3, 3, 4), (2, 3, 4), (1, 2, 2), (2, 4, 3)] {
        let clay = ClayCode::new(k, m, d).unwrap();
        let data: Vec<u8> = (0..200u32).map(|i| (i * 29 + 3) as u8).collect();
        let chunks = clay.encode(&data);
        let chunk_size = chunks[0].len();
        for lost in 0..clay.n {
            let others: Vec<usize> = (0..clay.n).filter(|i| *i != lost).collect();
            let reversed: Vec<usize> = others.iter().rev().cloned().collect();
            for available in [others.clone(), reversed] {
                let partial = partial_for(&clay, &chunks, lost, &available);
                assert_eq!(partial.len(), d);
                let recovered = clay.repair(lost, &partial, chunk_size).unwrap();
                assert_eq!(recovered, chunks[lost], "({}, {}, {}) node {}", k, m, d, lost);
            }
        }
    }
}

#[test]
fn decode_validation_errors() {
    let clay = ClayCode::new(4, 2, 5).unwrap();
    let data: Vec<u8> = (0..128).collect();
    let chunks = clay.encode(&data);

    // one chunk alone, of a size that no chunk has
    let mut single: HashMap<usize, Vec<u8>> = HashMap::new();
    single.insert(3, vec![0u8; 12]);
    assert_eq!(
        clay.decode(&single, &[0]),
        Err(ClayError::InvalidChunkSize { expected: 8, actual: 12 })
    );
    single.insert(3, vec![]);
    assert_eq!(
        clay.decode(&single, &[0]),
        Err(ClayError::InvalidChunkSize { expected: 8, actual: 0 })
    );

    // two sizes, both possible
    let mut mixed = all_but(&chunks, &[0]);
    mixed.insert(4, vec![0u8; chunks[0].len() + 8]);
    match clay.decode(&mixed, &[0]) {
        Err(ClayError::InconsistentChunkSizes { first_size, mismatched_idx, mismatched_size }) => {
            assert_ne!(first_size, mismatched_size);
            assert_eq!(mixed[&mismatched_idx].len(), mismatched_size);
            assert!(mixed.values().any(|c| c.len() == first_size));
        }
        other => panic!("{:?}", other),
    }

    // an erasure listed twice
    assert!(matches!(
        clay.decode(&all_but(&chunks, &[0]), &[0, 0]),
        Err(ClayError::InvalidParameters(_))
    ));
    // an erasure listed twice in place of another
    assert!(matches!(
        clay.decode(&all_but(&chunks, &[0, 1]), &[0, 0]),
        Err(ClayError::InvalidParameters(_))
    ));
    // too many erasures comes before the sizes
    assert_eq!(
        clay.decode(&single, &[0, 1, 2]),
        Err(ClayError::TooManyErasures { max: 2, actual: 3 })
    );
}

#[test]
fn decode_fails_where_the_scalar_code_has_too_many_shards() {
    // 258 nodes: more than a code over GF(2^8) has shards
    let clay = ClayCode::new(129, 129, 257).unwrap();
    assert_eq!(clay.sub_chunk_no, 129 * 129);
    let mut available: HashMap<usize, Vec<u8>> = HashMap::new();
    for i in 0..258 {
        available.insert(i, vec![0u8; clay.sub_chunk_no]);
    }
    match clay.decode(&available, &[]) {
        Err(ClayError::ReconstructionFailed(msg)) => assert_eq!(msg, "TooManyShards"),
        other => panic!("{:?}", other),
    }
}

#[test]
fn corrupted_input_still_gives_the_data_chunks_that_are_there() {
    let clay = ClayCode::new(4, 2, 5).unwrap();
    let mut available: HashMap<usize, Vec<u8>> = HashMap::new();
    for i in 1..6usize {
        available.insert(i, vec![(i * 17) as u8; 16]);
    }
    let decoded = clay.decode(&available, &[0]).unwrap();
    assert_eq!(decoded.len(), 64);
    for i in 1..4usize {
        assert_eq!(&decoded[i * 16..(i + 1) * 16], &available[&i][..]);
    }
}

#[test]
fn largest_score_over_a_set() {
    let mut erased: BTreeSet<usize> = BTreeSet::new();
    assert_eq!(get_max_iscore(&erased, 2, 2, 4), 0);
    assert_eq!(get_max_iscore(&erased, 2, 2, 0), 0);
    erased.insert(0);
    assert_eq!(get_max_iscore(&erased, 2, 2, 4), 1);
    erased.insert(1);
    // two nodes of one y-section: one red at a time
    assert_eq!(get_max_iscore(&erased, 2, 2, 4), 1);
    erased.insert(3);
    assert_eq!(get_max_iscore(&erased, 2, 2, 4), 2);
    // among the first two layers none has both red
    let mut other: BTreeSet<usize> = BTreeSet::new();
    other.insert(1);
    other.insert(3);
    assert_eq!(get_max_iscore(&other, 2, 2, 3), 1);
    assert_eq!(get_max_iscore(&other, 2, 2, 4), 2);
    // nodes beyond the y-sections do not count
    let mut far: BTreeSet<usize> = BTreeSet::new();
    far.insert(4);
    far.insert(usize::MAX);
    assert_eq!(get_max_iscore(&far, 2, 2, 4), 0);
}

#[test]
fn layers_in_the_order_of_decoding() {
    let mut erased: BTreeSet<usize> = BTreeSet::new();
    let mut order = vec![9usize; 4];
    set_planes_sequential_decoding_order(&mut order, &erased, 2, 2, 4);
    assert_eq!(order, vec![0, 1, 2, 3]);
    // node 0 is red in the layers 0 and 1
    erased.insert(0);
    set_planes_sequential_decoding_order(&mut order, &erased, 2, 2, 4);
    assert_eq!(order, vec![2, 3, 0, 1]);
    // node 3 is red in the layers 1 and 3
    erased.insert(3);
    set_planes_sequential_decoding_order(&mut order, &erased, 2, 2, 4);
    assert_eq!(order, vec![2, 0, 3, 1]);
    // a list with less room holds the layers that come first
    let mut short = vec![9usize; 2];
    set_planes_sequential_decoding_order(&mut short, &erased, 2, 2, 4);
    assert_eq!(short, vec![2, 0]);
    // a list with more room keeps the rest
    let mut long = vec![9usize; 6];
    set_planes_sequential_decoding_order(&mut long, &erased, 2, 2, 4);
    assert_eq!(long, vec![2, 0, 3, 1, 9, 9]);
    let mut none: Vec<usize> = Vec::new();
    set_planes_sequential_decoding_order(&mut none, &erased, 2, 2, 4);
    assert!(none.is_empty());
}

#[test]
fn repair_bandwidth_figures() {
    // (10, 4, 13): 13 helpers hand over 64 of 256 sub-chunks each
    let clay = ClayCode::new(10, 4, 13).unwrap();
    let available: Vec<usize> = (1..14).collect();
    let plan = clay.minimum_to_repair(0, &available).unwrap();
    let sub_chunks: usize = plan.iter().map(|(_, layers)| layers.len()).sum();
    assert_eq!(sub_chunks, 13 * 64);
    assert_eq!(clay.k * clay.sub_chunk_no, 10 * 256);
    assert_eq!(sub_chunks as f64 / (10.0 * 256.0), 0.325);
}
