use clay_codes::repair::{
    get_repair_subchunk_indices, minimum_to_repair, repair, RepairParams,
};
use clay_codes::ClayError;
use std::collections::HashMap;

fn test_params() -> RepairParams {
    RepairParams {
        k: 4,
        m: 2,
        n: 6,
        q: 2,
        t: 3,
        nu: 0,
        sub_chunk_no: 8,
        original_count: 4,
        recovery_count: 2,
    }
}

#[test]
fn test_repair_subchunk_indices_count() {
    let params = test_params();
    let beta = params.sub_chunk_no / params.q; // 8 / 2 = 4

    for lost_node in 0..params.n {
        let internal = if lost_node < params.k {
            lost_node
        } else {
            lost_node + params.nu
        };
        let indices = get_repair_subchunk_indices(&params, internal).unwrap();
        assert_eq!(
            indices.len(),
            beta,
            "Expected {} sub-chunks for node {}",
            beta,
            lost_node
        );
    }
}

#[test]
fn test_minimum_to_repair_helpers_count() {
    let params = test_params();
    let d = params.k + params.q - 1; // 4 + 2 - 1 = 5

    let available: Vec<usize> = (1..params.n).collect();
    let helper_info = minimum_to_repair(&params, 0, &available).unwrap();

    assert_eq!(helper_info.len(), d);
}

#[test]
fn test_minimum_to_repair_includes_y_section() {
    let params = test_params();

    // For node 0, y-section contains node 1 (both at y=0)
    let available: Vec<usize> = (1..params.n).collect();
    let helper_info = minimum_to_repair(&params, 0, &available).unwrap();

    let helpers: Vec<usize> = helper_info.iter().map(|(h, _)| *h).collect();
    assert!(
        helpers.contains(&1),
        "Y-section partner (node 1) should be included for repairing node 0"
    );
}

#[test]
fn test_minimum_to_repair_insufficient_helpers() {
    let params = test_params();
    let d = params.k + params.q - 1;

    // Only provide d-1 helpers
    let available: Vec<usize> = (1..d).collect();
    let result = minimum_to_repair(&params, 0, &available);

    assert!(matches!(
        result,
        Err(ClayError::InsufficientHelpers { .. })
    ));
}

#[test]
fn repair_layers_are_those_in_which_the_node_is_red() {
    let params = test_params();
    // node 0 = (0, 0): layers with first digit 0
    assert_eq!(get_repair_subchunk_indices(&params, 0).unwrap(), vec![0, 1, 2, 3]);
    // node 1 = (1, 0): layers with first digit 1
    assert_eq!(get_repair_subchunk_indices(&params, 1).unwrap(), vec![4, 5, 6, 7]);
    // node 2 = (0, 1): layers with second digit 0
    assert_eq!(get_repair_subchunk_indices(&params, 2).unwrap(), vec![0, 1, 4, 5]);
    // node 3 = (1, 1)
    assert_eq!(get_repair_subchunk_indices(&params, 3).unwrap(), vec![2, 3, 6, 7]);
    // node 4 = (0, 2): layers with last digit 0
    assert_eq!(get_repair_subchunk_indices(&params, 4).unwrap(), vec![0, 2, 4, 6]);
    // node 5 = (1, 2)
    assert_eq!(get_repair_subchunk_indices(&params, 5).unwrap(), vec![1, 3, 5, 7]);
}

#[test]
fn plan_lists_siblings_first_then_available_in_order() {
    let params = test_params();
    let plan = minimum_to_repair(&params, 2, &[5, 4, 3, 1, 0]).unwrap();
    let helpers: Vec<usize> = plan.iter().map(|(h, _)| *h).collect();
    // node 3 shares the y-section of node 2
    assert_eq!(helpers, vec![3, 5, 4, 1, 0]);
    for (_, layers) in &plan {
        assert_eq!(layers, &vec![0, 1, 4, 5]);
    }
    // the lost node and repeated nodes are passed over
    let plan = minimum_to_repair(&params, 2, &[2, 5, 5, 4, 3, 1, 0, 0]).unwrap();
    let helpers: Vec<usize> = plan.iter().map(|(h, _)| *h).collect();
    assert_eq!(helpers, vec![3, 5, 4, 1, 0]);
}

#[test]
fn plan_errors() {
    let params = test_params();
    assert!(matches!(
        minimum_to_repair(&params, 6, &[0, 1, 2, 3, 4]),
        Err(ClayError::InvalidParameters(_))
    ));
    assert_eq!(
        minimum_to_repair(&params, 0, &[1, 2, 3, 4]),
        Err(ClayError::InsufficientHelpers { needed: 5, provided: 4 })
    );
    assert_eq!(
        minimum_to_repair(&params, 0, &[0, 1, 1, 2, 2]),
        Err(ClayError::InsufficientHelpers { needed: 5, provided: 2 })
    );
    assert_eq!(
        minimum_to_repair(&params, 0, &[]),
        Err(ClayError::InsufficientHelpers { needed: 5, provided: 0 })
    );
}

fn helpers_for(
    params: &RepairParams,
    chunks: &[Vec<u8>],
    lost: usize,
    available: &[usize],
) -> HashMap<usize, Vec<u8>> {
    let sub_chunk_size = chunks[0].len() / params.sub_chunk_no;
    let plan = minimum_to_repair(params, lost, available).unwrap();
    let mut partial: HashMap<usize, Vec<u8>> = HashMap::new();
    for (helper, layers) in &plan {
        let mut bytes = Vec::new();
        for z in layers {
            bytes.extend_from_slice(&chunks[*helper][z * sub_chunk_size..(z + 1) * sub_chunk_size]);
        }
        partial.insert(*helper, bytes);
    }
    partial
}

#[test]
fn repair_errors() {
    let params = test_params();
    let data: Vec<u8> = (0..200u8).collect();
    let chunks = clay_codes::encode::encode(&params, &data);
    let chunk_size = chunks[0].len();
    let good = helpers_for(&params, &chunks, 0, &[1, 2, 3, 4, 5]);

    assert!(matches!(
        repair(&params, 6, &good, chunk_size),
        Err(ClayError::InvalidParameters(_))
    ));

    let mut few = good.clone();
    few.remove(&5);
    assert_eq!(
        repair(&params, 0, &few, chunk_size),
        Err(ClayError::InsufficientHelpers { needed: 5, provided: 4 })
    );

    assert_eq!(
        repair(&params, 0, &good, 0),
        Err(ClayError::InvalidChunkSize { expected: 8, actual: 0 })
    );
    assert_eq!(
        repair(&params, 0, &good, chunk_size + 1),
        Err(ClayError::InvalidChunkSize { expected: 8, actual: chunk_size + 1 })
    );

    // node 1 is the sibling of node 0: without it, with node 0 itself instead
    let mut no_sibling = good.clone();
    let row = no_sibling.remove(&1).unwrap();
    no_sibling.insert(0, row);
    assert_eq!(
        repair(&params, 0, &no_sibling, chunk_size),
        Err(ClayError::MissingYSectionHelper { lost_node: 0, missing_helper: 1 })
    );

    let mut short = good.clone();
    short.get_mut(&3).unwrap().pop();
    assert_eq!(
        repair(&params, 0, &short, chunk_size),
        Err(ClayError::InsufficientHelperData {
            helper: 3,
            expected: chunk_size / 2,
            actual: chunk_size / 2 - 1
        })
    );

    let mut stranger = good.clone();
    stranger.insert(9, vec![0u8; chunk_size / 2]);
    assert!(matches!(
        repair(&params, 0, &stranger, chunk_size),
        Err(ClayError::InvalidParameters(_))
    ));

    // the lost node among the helpers in place of a real helper: one node too many to recover
    let mut with_lost = good.clone();
    let row = with_lost.remove(&5).unwrap();
    with_lost.insert(0, row);
    assert_eq!(
        repair(&params, 0, &with_lost, chunk_size),
        Err(ClayError::TooManyErasures { max: 2, actual: 3 })
    );
}

#[test]
fn repair_with_an_aloof_node() {
    // (k, m, d) = (4, 3, 5): q = 2, n = 7, one shortened node, d < n - 1
    let clay = clay_codes::ClayCode::new(4, 3, 5).unwrap();
    let params = clay.encode_params();
    assert_eq!(params.nu, 1);
    let data: Vec<u8> = (0..255u8).collect();
    let chunks = clay.encode(&data);
    let chunk_size = chunks[0].len();
    for lost in 0..clay.n {
        let available: Vec<usize> = (0..clay.n).filter(|i| *i != lost).collect();
        let partial = helpers_for(&params, &chunks, lost, &available);
        assert_eq!(partial.len(), 5);
        let recovered = repair(&params, lost, &partial, chunk_size).unwrap();
        assert_eq!(recovered, chunks[lost], "node {}", lost);
        // with the helpers taken from the other end
        let reversed: Vec<usize> = available.iter().rev().cloned().collect();
        let partial = helpers_for(&params, &chunks, lost, &reversed);
        let recovered = repair(&params, lost, &partial, chunk_size).unwrap();
        assert_eq!(recovered, chunks[lost], "node {}", lost);
    }
}
