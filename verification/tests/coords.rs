use clay_codes::coords::{
    get_companion_layer, get_plane_vector, get_z_y, is_unpaired, node_to_xy, xy_to_node,
};

#[test]
fn test_plane_vector() {
    // For q=2, t=2 (MSB at index 0, LSB at index t-1):
    // z=0 (binary 00) -> [0,0]
    // z=1 (binary 01) -> [0,1]
    // z=2 (binary 10) -> [1,0]
    // z=3 (binary 11) -> [1,1]
    assert_eq!(get_plane_vector(0, 2, 2), vec![0, 0]);
    assert_eq!(get_plane_vector(1, 2, 2), vec![0, 1]);
    assert_eq!(get_plane_vector(2, 2, 2), vec![1, 0]);
    assert_eq!(get_plane_vector(3, 2, 2), vec![1, 1]);

    // For q=3, t=2: z=5 = 1*3 + 2 -> [1,2] (MSB=1, LSB=2)
    assert_eq!(get_plane_vector(5, 2, 3), vec![1, 2]);
}

#[test]
fn test_companion_layer() {
    let q = 2;

    // z=2, x=1, y=0: z_y = 0, x != z_y, so the companion is another layer
    // z_sw = 2 - 0*1 + 1*1 = 3
    let z_y = get_z_y(2, 0, q);
    assert_eq!(z_y, 0);
    assert_eq!(get_companion_layer(2, 1, 0, z_y, q), 3);

    // Unpaired case: z=3, x=1, y=0, z_y=1, x==z_y
    let z_y = get_z_y(3, 0, q);
    assert_eq!(z_y, 1);
    assert_eq!(get_companion_layer(3, 1, 0, z_y, q), 3); // Returns self
}

#[test]
fn test_is_unpaired() {
    let q = 2;
    // z=0: plane_vec=[0,0], unpaired at x=0 for y=0 and y=1
    assert!(is_unpaired(0, 0, 0, q));
    assert!(is_unpaired(0, 1, 0, q));
    assert!(!is_unpaired(1, 0, 0, q));

    // z=3: plane_vec=[1,1], unpaired at x=1 for y=0 and y=1
    assert!(is_unpaired(1, 0, 3, q));
    assert!(is_unpaired(1, 1, 3, q));
    assert!(!is_unpaired(0, 0, 3, q));
}

#[test]
fn test_node_conversion() {
    let q = 3;
    assert_eq!(node_to_xy(0, q), (0, 0));
    assert_eq!(node_to_xy(5, q), (2, 1));
    assert_eq!(xy_to_node(2, 1, q), 5);
}

#[test]
fn plane_vector_is_base_q_most_significant_first() {
    // 59 = 2*27 + 0*9 + 1*3 + 2
    assert_eq!(get_plane_vector(59, 4, 3), vec![2, 0, 1, 2]);
    // more digits than the layer needs: leading zeros
    assert_eq!(get_plane_vector(5, 4, 2), vec![0, 1, 0, 1]);
    // no digits at all
    assert_eq!(get_plane_vector(7, 0, 2), Vec::<usize>::new());
    for z in 0..81usize {
        let v = get_plane_vector(z, 4, 3);
        let value = v.iter().fold(0usize, |acc, d| acc * 3 + d);
        assert_eq!(value, z);
    }
}

#[test]
fn digit_of_weight_and_swapped_layer() {
    // 59 in base 3 is 2012: digit 0 is 2, digit 1 is 1, digit 2 is 0, digit 3 is 2
    assert_eq!(get_z_y(59, 0, 3), 2);
    assert_eq!(get_z_y(59, 1, 3), 1);
    assert_eq!(get_z_y(59, 2, 3), 0);
    assert_eq!(get_z_y(59, 3, 3), 2);
    // swap digit 1 from 1 to 2: 59 - 3 + 6
    assert_eq!(get_companion_layer(59, 2, 1, 1, 3), 62);
    // and back
    assert_eq!(get_companion_layer(62, 1, 1, 2, 3), 59);
    for z in 0..27usize {
        for y in 0..3usize {
            let z_y = get_z_y(z, y, 3);
            for x in 0..3usize {
                let z_sw = get_companion_layer(z, x, y, z_y, 3);
                assert_eq!(get_z_y(z_sw, y, 3), x);
                assert_eq!(get_companion_layer(z_sw, z_y, y, x, 3), z);
            }
        }
    }
}

#[test]
fn node_and_coordinates_are_inverse() {
    for q in 1..6usize {
        for node in 0..40usize {
            let (x, y) = node_to_xy(node, q);
            assert!(x < q);
            assert_eq!(xy_to_node(x, y, q), node);
        }
    }
}
