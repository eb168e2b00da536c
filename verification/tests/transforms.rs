use clay_codes::gf::{gf_double_by_shift, gf_mul_by_shifts};
use clay_codes::transforms::{
    compute_c_from_u_and_cstar, compute_cstar_from_c_and_u, compute_u_from_c_and_ustar, gf_inv,
    pft_compute_both, prt_compute_both, prt_compute_both_oriented, GAMMA,
};

fn gf_add(a: u8, b: u8) -> u8 {
    reed_solomon_erasure::galois_8::add(a, b)
}

fn gf_mul(a: u8, b: u8) -> u8 {
    reed_solomon_erasure::galois_8::mul(a, b)
}

fn gf_div(a: u8, b: u8) -> u8 {
    reed_solomon_erasure::galois_8::div(a, b)
}

/// The product in GF(2^8) modulo x^8 + x^4 + x^3 + x^2 + 1, by shifts.
fn shift_and_add(a: u8, b: u8) -> u8 {
    gf_mul_by_shifts(a, b)
}

#[test]
fn test_gamma_properties() {
    // Verify γ ≠ 0
    assert_ne!(GAMMA, 0);
    // Verify γ² ≠ 1
    let gamma_sq = gf_mul(GAMMA, GAMMA);
    assert_ne!(gamma_sq, 1);
}

#[test]
fn test_prt_pft_roundtrip() {
    let c = vec![0x12, 0x34, 0x56, 0x78];
    let c_star = vec![0xAB, 0xCD, 0xEF, 0x01];

    // C → U via PRT
    let (u, u_star) = prt_compute_both(&c, &c_star);

    // U → C via PFT
    let (c_back, c_star_back) = pft_compute_both(&u, &u_star);

    assert_eq!(c, c_back);
    assert_eq!(c_star, c_star_back);
}

#[test]
fn test_gf_arithmetic() {
    // Addition is XOR
    assert_eq!(gf_add(5, 3), 6); // 5 XOR 3 = 6

    // Multiplication
    assert_eq!(gf_mul(2, 3), 6); // 2 * 3 = 6 in GF(2^8)

    // Inverse: a^(-1) * a = 1
    assert_eq!(gf_mul(gf_inv(2), 2), 1);
}

#[test]
fn field_product_is_shift_and_add() {
    for a in 0..=255u8 {
        for b in 0..=255u8 {
            assert_eq!(gf_mul(a, b), shift_and_add(a, b), "{} * {}", a, b);
            assert_eq!(gf_add(a, b), a ^ b);
        }
    }
}

#[test]
fn doubling_is_the_product_with_two() {
    assert_eq!(gf_double_by_shift(0x01), 0x02);
    assert_eq!(gf_double_by_shift(0x40), 0x80);
    assert_eq!(gf_double_by_shift(0x80), 0x1d);
    assert_eq!(gf_double_by_shift(0xff), 0xe3);
    for a in 0..=255u8 {
        assert_eq!(gf_double_by_shift(a), gf_mul(2, a));
        assert_eq!(gf_double_by_shift(a), gf_mul(a, 2));
    }
    assert_eq!(gf_mul_by_shifts(0x53, 0x01), 0x53);
    assert_eq!(gf_mul_by_shifts(0x80, 0x02), 0x1d);
    assert_eq!(gf_mul_by_shifts(0x02, 0x80), 0x1d);
    assert_eq!(gf_mul_by_shifts(0x05, 0xa7), 0x01);
    assert_eq!(gf_mul_by_shifts(0x8e, 0x02), 0x01);
}

#[test]
fn field_quotient_times_divisor_is_dividend() {
    for a in 0..=255u8 {
        for b in 1..=255u8 {
            assert_eq!(shift_and_add(gf_div(a, b), b), a);
        }
    }
}

#[test]
fn inverse_of_every_nonzero_element() {
    for a in 1..=255u8 {
        assert_eq!(shift_and_add(gf_inv(a), a), 1);
    }
    assert_eq!(gf_inv(1), 1);
    assert_eq!(gf_inv(2), 0x8e);
    assert_eq!(gf_inv(5), 0xa7);
}

#[test]
fn prt_exact_values() {
    // U = C + 2·C*, U* = 2·C + C*
    let (u, u_star) = prt_compute_both(&[0x01, 0x80, 0x00], &[0x01, 0x01, 0xff]);
    assert_eq!(u, vec![0x01 ^ 0x02, 0x80 ^ 0x02, 0xe3]);
    assert_eq!(u_star, vec![0x02 ^ 0x01, 0x1d ^ 0x01, 0xff]);
    let (a, b) = prt_compute_both(&[], &[]);
    assert!(a.is_empty() && b.is_empty());
}

#[test]
fn oriented_prt_keeps_node_order() {
    let c_xy = vec![0x10, 0x22, 0xfe];
    let c_sw = vec![0x05, 0x90, 0x01];
    let (u_xy, u_sw) = prt_compute_both_oriented(&c_xy, &c_sw, true);
    let (v_xy, v_sw) = prt_compute_both_oriented(&c_xy, &c_sw, false);
    assert_eq!(u_xy, v_xy);
    assert_eq!(u_sw, v_sw);
    let (w_xy, w_sw) = prt_compute_both(&c_xy, &c_sw);
    assert_eq!(u_xy, w_xy);
    assert_eq!(u_sw, w_sw);
    for i in 0..3 {
        assert_eq!(u_xy[i], c_xy[i] ^ shift_and_add(2, c_sw[i]));
        assert_eq!(u_sw[i], c_sw[i] ^ shift_and_add(2, c_xy[i]));
    }
}

#[test]
fn pft_exact_values() {
    // C = (U + 2·U*) / 5
    let (c, c_star) = pft_compute_both(&[0x05, 0x00], &[0x00, 0x05]);
    assert_eq!(c, vec![0x01, shift_and_add(0x0a, 0xa7)]);
    assert_eq!(c_star, vec![shift_and_add(0x0a, 0xa7), 0x01]);
}

#[test]
fn pft_and_prt_are_inverse_on_all_byte_pairs() {
    for a in 0..=255u8 {
        let c: Vec<u8> = vec![a; 256];
        let c_star: Vec<u8> = (0..=255u8).collect();
        let (u, u_star) = prt_compute_both(&c, &c_star);
        let (c_back, c_star_back) = pft_compute_both(&u, &u_star);
        assert_eq!(c_back, c);
        assert_eq!(c_star_back, c_star);
        let (x, x_star) = pft_compute_both(&c, &c_star);
        let (u_back, u_star_back) = prt_compute_both(&x, &x_star);
        assert_eq!(u_back, c);
        assert_eq!(u_star_back, c_star);
    }
}

#[test]
fn partial_formulas_agree_with_prt() {
    let c: Vec<u8> = (0..=255u8).collect();
    let c_star: Vec<u8> = (0..=255u8).map(|i| i.wrapping_mul(37).wrapping_add(11)).collect();
    let (u, u_star) = prt_compute_both(&c, &c_star);
    // C = U + γ·C*
    assert_eq!(compute_c_from_u_and_cstar(&u, &c_star), c);
    // U = det·C + γ·U*
    assert_eq!(compute_u_from_c_and_ustar(&c, &u_star), u);
    // C* = (U + C) / γ
    assert_eq!(compute_cstar_from_c_and_u(&c, &u, false), c_star);
    assert_eq!(clay_codes::decode::compute_cstar_from_c_and_u(&c, &u), c_star);
    // C* = U* + γ·C
    assert_eq!(compute_cstar_from_c_and_u(&c, &u_star, true), c_star);
}

#[test]
fn partial_formulas_exact_values() {
    assert_eq!(compute_c_from_u_and_cstar(&[0x10], &[0x80]), vec![0x10 ^ 0x1d]);
    assert_eq!(compute_u_from_c_and_ustar(&[0x01], &[0x01]), vec![0x05 ^ 0x02]);
    assert_eq!(compute_cstar_from_c_and_u(&[0x03], &[0x01], false), vec![0x01]);
}
