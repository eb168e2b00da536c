use clay_codes::coords::get_plane_vector;
use clay_codes::decode::{decode, get_companion_layer, get_max_iscore, DecodeParams};
use std::collections::{BTreeSet, HashMap};

fn test_params() -> DecodeParams {
    DecodeParams {
        k: 4,
        m: 2,
        n: 6,
        q: 2,
        t: 3,
        nu: 0,
        sub_chunk_no: 8,
        original_count: 4,
        recovery_count: 2,
    }
}

#[test]
fn test_companion_layer_valid_range() {
    let params = test_params();

    for z in 0..params.sub_chunk_no {
        let z_vec = get_plane_vector(z, params.t, params.q);
        for y in 0..params.t {
            for x in 0..params.q {
                let z_sw = get_companion_layer(&params, z, x, y, z_vec[y]);
                assert!(
                    z_sw < params.sub_chunk_no,
                    "z_sw {} out of range for z={}, x={}, y={}",
                    z_sw,
                    z,
                    x,
                    y
                );
            }
        }
    }
}

#[test]
fn test_decode_empty_both() {
    let params = test_params();
    let available: HashMap<usize, Vec<u8>> = HashMap::new();
    let result = decode(&params, &available, &[]);
    assert!(result.is_ok());
    assert!(result.unwrap().is_empty());
}

#[test]
fn test_get_max_iscore() {
    let params = test_params();

    // No erasures
    let empty: BTreeSet<usize> = BTreeSet::new();
    assert_eq!(get_max_iscore(&params, &empty), 0);

    // One erasure
    let mut one: BTreeSet<usize> = BTreeSet::new();
    one.insert(0);
    assert_eq!(get_max_iscore(&params, &one), 1);

    // Two erasures in same y-section
    let mut two_same: BTreeSet<usize> = BTreeSet::new();
    two_same.insert(0);
    two_same.insert(1);
    assert_eq!(get_max_iscore(&params, &two_same), 1);

    // Two erasures in different y-sections
    let mut two_diff: BTreeSet<usize> = BTreeSet::new();
    two_diff.insert(0);
    two_diff.insert(2);
    assert_eq!(get_max_iscore(&params, &two_diff), 2);
}

#[test]
fn companion_layer_swaps_one_entry_of_the_plane_vector() {
    let params = test_params();
    // z = 5 has plane vector [1, 0, 1]; node (0, 0): entry 0 becomes 0
    assert_eq!(get_companion_layer(&params, 5, 0, 0, 1), 1);
    // node (1, 1): entry 1 becomes 1
    assert_eq!(get_companion_layer(&params, 5, 1, 1, 0), 7);
    // a red vertex is its own companion
    assert_eq!(get_companion_layer(&params, 5, 1, 0, 1), 5);
    for z in 0..params.sub_chunk_no {
        let z_vec = get_plane_vector(z, params.t, params.q);
        for y in 0..params.t {
            for x in 0..params.q {
                let z_sw = get_companion_layer(&params, z, x, y, z_vec[y]);
                let sw_vec = get_plane_vector(z_sw, params.t, params.q);
                for y2 in 0..params.t {
                    if y2 == y {
                        assert_eq!(sw_vec[y2], x);
                    } else {
                        assert_eq!(sw_vec[y2], z_vec[y2]);
                    }
                }
                assert_eq!(get_companion_layer(&params, z_sw, z_vec[y], y, x), z);
            }
        }
    }
}

#[test]
fn companion_layer_wraps_around_for_other_entries() {
    let params = test_params();
    // (z + (x - z_y) * 4) mod 8 with z_y that is not the entry of z
    assert_eq!(get_companion_layer(&params, 1, 0, 0, 1), 5);
    assert_eq!(get_companion_layer(&params, 6, 1, 0, 0), 2);
    for z in 0..8 {
        for x in 0..2 {
            for z_y in 0..2 {
                for y in 0..3 {
                    let z_sw = get_companion_layer(&params, z, x, y, z_y);
                    assert_eq!(get_companion_layer(&params, z_sw, z_y, y, x), z);
                }
            }
        }
    }
}
