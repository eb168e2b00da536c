//! Arithmetic in GF(2^8), the field the scalar codec works over.
//!
//! Field elements are bytes read as polynomials over GF(2), reduced modulo
//! x^8 + x^4 + x^3 + x^2 + 1. The products and quotients themselves are
//! computed by the `reed_solomon_erasure` crate; this module states what
//! they are and proves the identities the coupling transforms rest on.

use vstd::prelude::*;

verus! {

/// Coupling coefficient of the pairwise transforms. It is neither zero nor
/// a square root of one, so the coupling matrix is invertible.
pub const GAMMA: u8 = 2;

/// Determinant `1 + GAMMA^2` of the coupling matrix.
pub const DET: u8 = 5;

/// Multiplicative inverse of [`DET`].
pub const DET_INV: u8 = 0xa7;

/// Multiplicative inverse of [`GAMMA`].
pub const GAMMA_INV: u8 = 0x8e;

/// Field sum: addition of polynomials over GF(2).
pub open spec fn gf_add_spec(a: u8, b: u8) -> u8 {
    a ^ b
}

/// `a` times x: a shift, reduced by the field polynomial when it overflows.
pub open spec fn gf_double(a: u8) -> u8 {
    if a & 0x80 == 0 {
        a << 1
    } else {
        (a << 1) ^ 0x1d
    }
}

/// `a` if bit `i` of `b` is set, else zero.
pub open spec fn gf_term(a: u8, b: u8, i: u8) -> u8 {
    if (b >> i) & 1 == 1 {
        a
    } else {
        0
    }
}

/// Field product: the sum of `a` times x^i over the set bits `i` of `b`.
pub open spec fn gf_mul_spec(a: u8, b: u8) -> u8 {
    let a1 = gf_double(a);
    let a2 = gf_double(a1);
    let a3 = gf_double(a2);
    let a4 = gf_double(a3);
    let a5 = gf_double(a4);
    let a6 = gf_double(a5);
    let a7 = gf_double(a6);
    gf_term(a, b, 0) ^ gf_term(a1, b, 1) ^ gf_term(a2, b, 2) ^ gf_term(a3, b, 3) ^ gf_term(
        a4,
        b,
        4,
    ) ^ gf_term(a5, b, 5) ^ gf_term(a6, b, 6) ^ gf_term(a7, b, 7)
}

/// Calls `reed_solomon_erasure::galois_8::add`, which is the bitwise
/// exclusive or of its arguments.
#[verifier::external_body]
pub(crate) fn gf_add(a: u8, b: u8) -> (r: u8)
    ensures
        r == gf_add_spec(a, b),
{
    reed_solomon_erasure::galois_8::add(a, b)
}

/// Calls `reed_solomon_erasure::galois_8::mul`. The crate looks the product
/// up in a table that its build script fills from the logarithms to base 2
/// under the polynomial x^8 + x^4 + x^3 + x^2 + 1; the contract states the
/// same product as a sum of shifted, reduced copies of `a`.
#[verifier::external_body]
pub(crate) fn gf_mul(a: u8, b: u8) -> (r: u8)
    ensures
        r == gf_mul_spec(a, b),
{
    reed_solomon_erasure::galois_8::mul(a, b)
}

/// Calls `reed_solomon_erasure::galois_8::div`, which panics on a zero
/// divisor when the dividend is not zero. For a nonzero divisor the
/// quotient is the element whose product with `b` is `a`.
#[verifier::external_body]
pub(crate) fn gf_div(a: u8, b: u8) -> (r: u8)
    requires
        b != 0,
    ensures
        gf_mul_spec(r, b) == a,
{
    reed_solomon_erasure::galois_8::div(a, b)
}

/// `a` times x, computed as the definition says.
pub fn gf_double_by_shift(a: u8) -> (r: u8)
    ensures
        r == gf_double(a),
{
    if a & 0x80 == 0 {
        a << 1
    } else {
        (a << 1) ^ 0x1d
    }
}

/// The field product computed as the definition says, by shifts and
/// additions. The library itself multiplies with the tables of
/// `reed_solomon_erasure`; this function is there to hold those tables to
/// the definition.
pub fn gf_mul_by_shifts(a: u8, b: u8) -> (r: u8)
    ensures
        r == gf_mul_spec(a, b),
{
    let a1 = gf_double_by_shift(a);
    let a2 = gf_double_by_shift(a1);
    let a3 = gf_double_by_shift(a2);
    let a4 = gf_double_by_shift(a3);
    let a5 = gf_double_by_shift(a4);
    let a6 = gf_double_by_shift(a5);
    let a7 = gf_double_by_shift(a6);
    let t0: u8 = if (b >> 0) & 1 == 1 { a } else { 0 };
    let t1: u8 = if (b >> 1) & 1 == 1 { a1 } else { 0 };
    let t2: u8 = if (b >> 2) & 1 == 1 { a2 } else { 0 };
    let t3: u8 = if (b >> 3) & 1 == 1 { a3 } else { 0 };
    let t4: u8 = if (b >> 4) & 1 == 1 { a4 } else { 0 };
    let t5: u8 = if (b >> 5) & 1 == 1 { a5 } else { 0 };
    let t6: u8 = if (b >> 6) & 1 == 1 { a6 } else { 0 };
    let t7: u8 = if (b >> 7) & 1 == 1 { a7 } else { 0 };
    t0 ^ t1 ^ t2 ^ t3 ^ t4 ^ t5 ^ t6 ^ t7
}

/// Multiplicative inverse of a nonzero field element.
pub fn gf_inv(a: u8) -> (r: u8)
    requires
        a != 0,
    ensures
        gf_mul_spec(r, a) == 1,
{
    gf_div(1, a)
}

/// Only one element inverts [`DET`], and only one inverts [`GAMMA`].
pub proof fn lemma_inverses_unique(r: u8)
    ensures
        gf_mul_spec(r, DET) == 1 ==> r == DET_INV,
        gf_mul_spec(r, GAMMA) == 1 ==> r == GAMMA_INV,
        gf_mul_spec(GAMMA, GAMMA) ^ 1 == DET,
        1 ^ gf_mul_spec(GAMMA, GAMMA) == DET,
{
    assert(gf_mul_spec(r, 5) == 1 ==> r == 0xa7) by (bit_vector);
    assert(gf_mul_spec(r, 2) == 1 ==> r == 0x8e) by (bit_vector);
    assert(gf_mul_spec(2, 2) ^ 1 == 5) by (bit_vector);
    assert(1 ^ gf_mul_spec(2, 2) == 5) by (bit_vector);
}

/// The products with the four constants of the transforms, written with
/// doublings alone.
pub proof fn lemma_constant_products(w: u8)
    ensures
        gf_mul_spec(GAMMA, w) == gf_double(w),
        gf_mul_spec(DET, w) == w ^ gf_double(gf_double(w)),
        ({
            let w1 = gf_double(w);
            let w2 = gf_double(w1);
            let w3 = gf_double(w2);
            let w4 = gf_double(w3);
            let w5 = gf_double(w4);
            let w6 = gf_double(w5);
            let w7 = gf_double(w6);
            &&& gf_mul_spec(w, DET_INV) == w ^ w1 ^ w2 ^ w5 ^ w7
            &&& gf_mul_spec(w, GAMMA_INV) == w1 ^ w2 ^ w3 ^ w7
        }),
{
    assert(gf_mul_spec(2, w) == gf_double(w)) by (bit_vector);
    assert(gf_mul_spec(5, w) == w ^ gf_double(gf_double(w))) by (bit_vector);
    let w1 = gf_double(w);
    let w2 = gf_double(w1);
    let w3 = gf_double(w2);
    let w4 = gf_double(w3);
    let w5 = gf_double(w4);
    let w6 = gf_double(w5);
    let w7 = gf_double(w6);
    assert(gf_mul_spec(w, 0xa7) == w ^ w1 ^ w2 ^ w5 ^ w7) by (bit_vector)
        requires
            w1 == gf_double(w),
            w2 == gf_double(w1),
            w3 == gf_double(w2),
            w4 == gf_double(w3),
            w5 == gf_double(w4),
            w6 == gf_double(w5),
            w7 == gf_double(w6),
    ;
    assert(gf_mul_spec(w, 0x8e) == w1 ^ w2 ^ w3 ^ w7) by (bit_vector)
        requires
            w1 == gf_double(w),
            w2 == gf_double(w1),
            w3 == gf_double(w2),
            w4 == gf_double(w3),
            w5 == gf_double(w4),
            w6 == gf_double(w5),
            w7 == gf_double(w6),
    ;
}

/// Doubling is linear, and the field polynomial is zero in the field:
/// with `a_i` for `a` doubled `i` times, `a + a_2 + a_3 + a_4 + a_8 = 0`.
pub proof fn lemma_doubling(a: u8, b: u8)
    ensures
        gf_double(a ^ b) == gf_double(a) ^ gf_double(b),
        ({
            let a1 = gf_double(a);
            let a2 = gf_double(a1);
            let a3 = gf_double(a2);
            let a4 = gf_double(a3);
            let a5 = gf_double(a4);
            let a6 = gf_double(a5);
            let a7 = gf_double(a6);
            let a8 = gf_double(a7);
            a ^ a2 ^ a3 ^ a4 ^ a8 == 0
        }),
{
    assert(gf_double(a ^ b) == gf_double(a) ^ gf_double(b)) by (bit_vector);
    let a1 = gf_double(a);
    let a2 = gf_double(a1);
    let a3 = gf_double(a2);
    let a4 = gf_double(a3);
    let a5 = gf_double(a4);
    let a6 = gf_double(a5);
    let a7 = gf_double(a6);
    let a8 = gf_double(a7);
    assert(a ^ a2 ^ a3 ^ a4 ^ a8 == 0) by (bit_vector)
        requires
            a1 == gf_double(a),
            a2 == gf_double(a1),
            a3 == gf_double(a2),
            a4 == gf_double(a3),
            a5 == gf_double(a4),
            a6 == gf_double(a5),
            a7 == gf_double(a6),
            a8 == gf_double(a7),
    ;
}

} // verus!
