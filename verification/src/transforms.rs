//! Pairwise coupling transforms.
//!
//! A coupled pair `(C, C*)` and its uncoupled pair `(U, U*)` are related by
//! the symmetric matrix `[[1, γ], [γ, 1]]` over GF(2^8):
//! `U = C + γ·C*` and `U* = γ·C + C*`. The reverse transform (PRT) goes from
//! the coupled to the uncoupled side, the forward transform (PFT) back. All
//! functions work byte by byte on buffers of one sub-chunk.

use vstd::prelude::*;
use crate::gf::{
    gf_add,
    gf_double,
    gf_mul,
    gf_mul_spec,
    lemma_constant_products,
    lemma_doubling,
    lemma_inverses_unique,
    DET,
    DET_INV,
    GAMMA_INV,
};

pub use crate::gf::{gf_inv, GAMMA};

verus! {

/// `a + γ·b`, byte by byte, over the length of `a`.
pub open spec fn mix(a: Seq<u8>, b: Seq<u8>) -> Seq<u8> {
    Seq::new(a.len(), |i: int| a[i] ^ gf_mul_spec(GAMMA, b[i]))
}

/// `(a + γ·b) / det`, byte by byte, over the length of `a`.
pub open spec fn unmix(a: Seq<u8>, b: Seq<u8>) -> Seq<u8> {
    Seq::new(a.len(), |i: int| gf_mul_spec(a[i] ^ gf_mul_spec(GAMMA, b[i]), DET_INV))
}

/// `det·c + γ·u_star`, byte by byte, over the length of `c`.
pub open spec fn u_of_c_and_ustar(c: Seq<u8>, u_star: Seq<u8>) -> Seq<u8> {
    Seq::new(c.len(), |i: int| gf_mul_spec(DET, c[i]) ^ gf_mul_spec(GAMMA, u_star[i]))
}

/// `(u + c) / γ`, byte by byte, over the length of `c`.
pub open spec fn cstar_of_c_and_u(c: Seq<u8>, u: Seq<u8>) -> Seq<u8> {
    Seq::new(c.len(), |i: int| gf_mul_spec(u[i] ^ c[i], GAMMA_INV))
}

/// PRT: both uncoupled values from both coupled ones.
pub fn prt_compute_both(c: &[u8], c_star: &[u8]) -> (r: (Vec<u8>, Vec<u8>))
    requires
        c@.len() == c_star@.len(),
    ensures
        r.0@ == mix(c@, c_star@),
        r.1@ == mix(c_star@, c@),
{
    let len = c.len();
    let mut u: Vec<u8> = Vec::new();
    let mut u_star: Vec<u8> = Vec::new();
    let mut i: usize = 0;
    while i < len
        invariant
            i <= len,
            len == c@.len(),
            len == c_star@.len(),
            u@.len() == i,
            u_star@.len() == i,
            forall|j: int| 0 <= j < i ==> u@[j] == c@[j] ^ gf_mul_spec(GAMMA, c_star@[j]),
            forall|j: int| 0 <= j < i ==> u_star@[j] == c_star@[j] ^ gf_mul_spec(GAMMA, c@[j]),
        decreases len - i,
    {
        let x = gf_add(c[i], gf_mul(GAMMA, c_star[i]));
        let y = gf_add(gf_mul(GAMMA, c[i]), c_star[i]);
        proof {
            let a = gf_mul_spec(GAMMA, c@[i as int]);
            let b = c_star@[i as int];
            assert(a ^ b == b ^ a) by (bit_vector);
        }
        u.push(x);
        u_star.push(y);
        i += 1;
    }
    (u, u_star)
}

/// PRT on a pair given in node-local order: `c_xy` sits at node (x, y) in
/// layer z, `c_sw` at the companion node in the companion layer. The flag
/// says which of the two is the primary of the pair (`x < z_y`). The result
/// is `(U_xy, U_sw)` in the same order.
pub fn prt_compute_both_oriented(c_xy: &[u8], c_sw: &[u8], xy_is_primary: bool) -> (r: (
    Vec<u8>,
    Vec<u8>,
))
    requires
        c_xy@.len() == c_sw@.len(),
    ensures
        r.0@ == mix(c_xy@, c_sw@),
        r.1@ == mix(c_sw@, c_xy@),
{
    if xy_is_primary {
        prt_compute_both(c_xy, c_sw)
    } else {
        let (u_sw, u_xy) = prt_compute_both(c_sw, c_xy);
        (u_xy, u_sw)
    }
}

/// PFT: both coupled values from both uncoupled ones.
pub fn pft_compute_both(u: &[u8], u_star: &[u8]) -> (r: (Vec<u8>, Vec<u8>))
    requires
        u@.len() == u_star@.len(),
    ensures
        r.0@ == unmix(u@, u_star@),
        r.1@ == unmix(u_star@, u@),
{
    let len = u.len();
    let mut c: Vec<u8> = Vec::new();
    let mut c_star: Vec<u8> = Vec::new();
    let det = gf_add(1, gf_mul(GAMMA, GAMMA));
    proof {
        lemma_inverses_unique(0);
    }
    let det_inv = gf_inv(det);
    proof {
        lemma_inverses_unique(det_inv);
    }
    let mut i: usize = 0;
    while i < len
        invariant
            i <= len,
            len == u@.len(),
            len == u_star@.len(),
            det_inv == DET_INV,
            c@.len() == i,
            c_star@.len() == i,
            forall|j: int|
                0 <= j < i ==> c@[j] == gf_mul_spec(
                    u@[j] ^ gf_mul_spec(GAMMA, u_star@[j]),
                    DET_INV,
                ),
            forall|j: int|
                0 <= j < i ==> c_star@[j] == gf_mul_spec(
                    u_star@[j] ^ gf_mul_spec(GAMMA, u@[j]),
                    DET_INV,
                ),
        decreases len - i,
    {
        let x = gf_mul(gf_add(u[i], gf_mul(GAMMA, u_star[i])), det_inv);
        let y = gf_mul(gf_add(gf_mul(GAMMA, u[i]), u_star[i]), det_inv);
        proof {
            let a = gf_mul_spec(GAMMA, u@[i as int]);
            let b = u_star@[i as int];
            assert(a ^ b == b ^ a) by (bit_vector);
        }
        c.push(x);
        c_star.push(y);
        i += 1;
    }
    (c, c_star)
}

/// `C = U + γ·C*`: the coupled value from its own uncoupled value and the
/// companion's coupled value.
pub fn compute_c_from_u_and_cstar(u_xy: &[u8], c_companion: &[u8]) -> (c: Vec<u8>)
    requires
        u_xy@.len() == c_companion@.len(),
    ensures
        c@ == mix(u_xy@, c_companion@),
{
    let len = u_xy.len();
    let mut c: Vec<u8> = Vec::new();
    let mut i: usize = 0;
    while i < len
        invariant
            i <= len,
            len == u_xy@.len(),
            len == c_companion@.len(),
            c@.len() == i,
            forall|j: int| 0 <= j < i ==> c@[j] == u_xy@[j] ^ gf_mul_spec(GAMMA, c_companion@[j]),
        decreases len - i,
    {
        c.push(gf_add(u_xy[i], gf_mul(GAMMA, c_companion[i])));
        i += 1;
    }
    c
}

/// The companion's coupled value from a helper's coupled value and an
/// uncoupled value. With `helper_is_primary` the uncoupled value is the
/// companion's own (`C* = U* + γ·C`); without it, it is the helper's
/// (`C* = (U + C) / γ`).
pub fn compute_cstar_from_c_and_u(c_helper: &[u8], u_helper: &[u8], helper_is_primary: bool) -> (r:
    Vec<u8>)
    requires
        c_helper@.len() == u_helper@.len(),
    ensures
        helper_is_primary ==> r@ == mix(u_helper@, c_helper@),
        !helper_is_primary ==> r@ == cstar_of_c_and_u(c_helper@, u_helper@),
{
    if helper_is_primary {
        compute_c_from_u_and_cstar(u_helper, c_helper)
    } else {
        cstar_from_sum(c_helper, u_helper)
    }
}

/// `C* = (U + C) / γ`: the companion's coupled value from a node's own
/// coupled and uncoupled values.
pub(crate) fn cstar_from_sum(c_helper: &[u8], u_helper: &[u8]) -> (r: Vec<u8>)
    requires
        c_helper@.len() == u_helper@.len(),
    ensures
        r@ == cstar_of_c_and_u(c_helper@, u_helper@),
{
    let len = c_helper.len();
    let mut r: Vec<u8> = Vec::new();
    let gamma_inv = gf_inv(GAMMA);
    proof {
        lemma_inverses_unique(gamma_inv);
    }
    let mut i: usize = 0;
    while i < len
        invariant
            i <= len,
            len == c_helper@.len(),
            len == u_helper@.len(),
            gamma_inv == GAMMA_INV,
            r@.len() == i,
            forall|j: int|
                0 <= j < i ==> r@[j] == gf_mul_spec(u_helper@[j] ^ c_helper@[j], GAMMA_INV),
        decreases len - i,
    {
        r.push(gf_mul(gf_add(u_helper[i], c_helper[i]), gamma_inv));
        i += 1;
    }
    r
}

/// `U = det·C + γ·U*`: the uncoupled value from the own coupled value and
/// the companion's uncoupled value.
pub fn compute_u_from_c_and_ustar(c_xy: &[u8], u_companion: &[u8]) -> (u: Vec<u8>)
    requires
        c_xy@.len() == u_companion@.len(),
    ensures
        u@ == u_of_c_and_ustar(c_xy@, u_companion@),
{
    let len = c_xy.len();
    let mut u: Vec<u8> = Vec::new();
    let det = gf_add(1, gf_mul(GAMMA, GAMMA));
    proof {
        lemma_inverses_unique(0);
    }
    let mut i: usize = 0;
    while i < len
        invariant
            i <= len,
            len == c_xy@.len(),
            len == u_companion@.len(),
            det == DET,
            u@.len() == i,
            forall|j: int|
                0 <= j < i ==> u@[j] == gf_mul_spec(DET, c_xy@[j]) ^ gf_mul_spec(
                    GAMMA,
                    u_companion@[j],
                ),
        decreases len - i,
    {
        u.push(gf_add(gf_mul(det, c_xy[i]), gf_mul(GAMMA, u_companion[i])));
        i += 1;
    }
    u
}

/// `(c + c·x^2) / det = c`: the determinant is `1 + x^2`.
proof fn lemma_det_cancels(c: u8)
    ensures
        gf_mul_spec(c ^ gf_double(gf_double(c)), DET_INV) == c,
{
    let w = c ^ gf_double(gf_double(c));
    let c1 = gf_double(c);
    let c2 = gf_double(c1);
    let c3 = gf_double(c2);
    let c4 = gf_double(c3);
    let c5 = gf_double(c4);
    let c6 = gf_double(c5);
    let c7 = gf_double(c6);
    let c8 = gf_double(c7);
    let c9 = gf_double(c8);
    let w1 = gf_double(w);
    let w2 = gf_double(w1);
    let w3 = gf_double(w2);
    let w4 = gf_double(w3);
    let w5 = gf_double(w4);
    let w6 = gf_double(w5);
    let w7 = gf_double(w6);
    lemma_constant_products(w);
    lemma_doubling(c, c2);
    lemma_doubling(c1, c3);
    lemma_doubling(c2, c4);
    lemma_doubling(c3, c5);
    lemma_doubling(c4, c6);
    lemma_doubling(c5, c7);
    lemma_doubling(c6, c8);
    lemma_doubling(c1, 0);
    assert(w1 == c1 ^ c3 && w2 == c2 ^ c4 && w5 == c5 ^ c7 && w7 == c7 ^ c9);
    assert(c1 ^ c3 ^ c4 ^ c5 ^ c9 == 0);
    assert((c ^ c2) ^ (c1 ^ c3) ^ (c2 ^ c4) ^ (c5 ^ c7) ^ (c7 ^ c9) == c) by (bit_vector)
        requires
            c1 ^ c3 ^ c4 ^ c5 ^ c9 == 0,
    ;
}

/// The coupling identities on single bytes.
proof fn lemma_byte_identities(c: u8, s: u8)
    ensures
        ({
            let u = c ^ gf_mul_spec(GAMMA, s);
            let v = s ^ gf_mul_spec(GAMMA, c);
            &&& gf_mul_spec(u ^ gf_mul_spec(GAMMA, v), DET_INV) == c
            &&& u ^ gf_mul_spec(GAMMA, s) == c
            &&& gf_mul_spec(DET, c) ^ gf_mul_spec(GAMMA, v) == u
            &&& gf_mul_spec(u ^ c, GAMMA_INV) == s
        }),
        ({
            let a = gf_mul_spec(c ^ gf_mul_spec(GAMMA, s), DET_INV);
            let b = gf_mul_spec(s ^ gf_mul_spec(GAMMA, c), DET_INV);
            a ^ gf_mul_spec(GAMMA, b) == c
        }),
{
    let s1 = gf_double(s);
    let c1 = gf_double(c);
    let c2 = gf_double(c1);
    let u = c ^ s1;
    let v = s ^ c1;
    lemma_constant_products(s);
    lemma_constant_products(c);
    lemma_constant_products(v);
    lemma_doubling(s, c1);
    // first clause
    assert(u ^ gf_double(v) == c ^ c2) by (bit_vector)
        requires
            u == c ^ s1,
            gf_double(v) == s1 ^ c2,
    ;
    lemma_det_cancels(c);
    // second and third clause
    assert(u ^ s1 == c) by (bit_vector)
        requires
            u == c ^ s1,
    ;
    assert((c ^ c2) ^ (s1 ^ c2) == u) by (bit_vector)
        requires
            u == c ^ s1,
    ;
    // fourth clause
    assert(u ^ c == s1) by (bit_vector)
        requires
            u == c ^ s1,
    ;
    lemma_constant_products(s1);
    lemma_doubling(s, 0);
    let s2 = gf_double(s1);
    let s3 = gf_double(s2);
    let s4 = gf_double(s3);
    let s8 = gf_double(gf_double(gf_double(gf_double(s4))));
    assert(s2 ^ s3 ^ s4 ^ s8 == s) by (bit_vector)
        requires
            s ^ s2 ^ s3 ^ s4 ^ s8 == 0,
    ;
    // last clause
    lemma_sum_of_quotients(u, v);
    assert(u ^ gf_double(v) == c ^ c2);
}

/// `a / det + γ·(b / det) = (a + γ·b) / det`.
proof fn lemma_sum_of_quotients(a: u8, b: u8)
    ensures
        gf_mul_spec(a, DET_INV) ^ gf_mul_spec(GAMMA, gf_mul_spec(b, DET_INV)) == gf_mul_spec(
            a ^ gf_double(b),
            DET_INV,
        ),
{
    let b1 = gf_double(b);
    let b2 = gf_double(b1);
    let b3 = gf_double(b2);
    let b4 = gf_double(b3);
    let b5 = gf_double(b4);
    let b6 = gf_double(b5);
    let b7 = gf_double(b6);
    let b8 = gf_double(b7);
    let a1 = gf_double(a);
    let a2 = gf_double(a1);
    let a3 = gf_double(a2);
    let a4 = gf_double(a3);
    let a5 = gf_double(a4);
    let a6 = gf_double(a5);
    let a7 = gf_double(a6);
    let w = a ^ b1;
    lemma_constant_products(a);
    lemma_constant_products(b);
    lemma_constant_products(w);
    let q = gf_mul_spec(b, DET_INV);
    lemma_constant_products(q);
    // doubling the quotient of b, term by term
    lemma_doubling(b, b1);
    lemma_doubling(b ^ b1, b2);
    lemma_doubling(b ^ b1 ^ b2, b5);
    lemma_doubling(b ^ b1 ^ b2 ^ b5, b7);
    assert(gf_double(q) == b1 ^ b2 ^ b3 ^ b6 ^ b8);
    // the doublings of w, term by term
    lemma_doubling(a, b1);
    lemma_doubling(a1, b2);
    lemma_doubling(a2, b3);
    lemma_doubling(a3, b4);
    lemma_doubling(a4, b5);
    lemma_doubling(a5, b6);
    lemma_doubling(a6, b7);
    let x = a ^ a1 ^ a2 ^ a5 ^ a7;
    let y = b1 ^ b2 ^ b3 ^ b6 ^ b8;
    assert(x ^ y == (a ^ b1) ^ (a1 ^ b2) ^ (a2 ^ b3) ^ (a5 ^ b6) ^ (a7 ^ b8)) by (bit_vector)
        requires
            x == a ^ a1 ^ a2 ^ a5 ^ a7,
            y == b1 ^ b2 ^ b3 ^ b6 ^ b8,
    ;
}

/// PFT undoes PRT: transforming a coupled pair to the uncoupled side and
/// back gives the pair again.
pub proof fn lemma_pft_inverts_prt(c: Seq<u8>, c_star: Seq<u8>)
    requires
        c.len() == c_star.len(),
    ensures
        unmix(mix(c, c_star), mix(c_star, c)) == c,
        unmix(mix(c_star, c), mix(c, c_star)) == c_star,
{
    assert forall|i: int| 0 <= i < c.len() implies #[trigger] unmix(
        mix(c, c_star),
        mix(c_star, c),
    )[i] == c[i] && unmix(mix(c_star, c), mix(c, c_star))[i] == c_star[i] by {
        lemma_byte_identities(c[i], c_star[i]);
        lemma_byte_identities(c_star[i], c[i]);
    }
    assert(unmix(mix(c, c_star), mix(c_star, c)) =~= c);
    assert(unmix(mix(c_star, c), mix(c, c_star)) =~= c_star);
}

/// PRT undoes PFT: transforming an uncoupled pair to the coupled side and
/// back gives the pair again.
pub proof fn lemma_prt_inverts_pft(u: Seq<u8>, u_star: Seq<u8>)
    requires
        u.len() == u_star.len(),
    ensures
        mix(unmix(u, u_star), unmix(u_star, u)) == u,
        mix(unmix(u_star, u), unmix(u, u_star)) == u_star,
{
    assert forall|i: int| 0 <= i < u.len() implies #[trigger] mix(
        unmix(u, u_star),
        unmix(u_star, u),
    )[i] == u[i] && mix(unmix(u_star, u), unmix(u, u_star))[i] == u_star[i] by {
        lemma_byte_identities(u[i], u_star[i]);
        lemma_byte_identities(u_star[i], u[i]);
    }
    assert(mix(unmix(u, u_star), unmix(u_star, u)) =~= u);
    assert(mix(unmix(u_star, u), unmix(u, u_star)) =~= u_star);
}

/// The three partial recovery formulas agree with the full transform:
/// with `U = C + γ·C*` and `U* = C* + γ·C`,
/// `C = U + γ·C*`, `U = det·C + γ·U*` and `C* = (U + C) / γ`.
pub proof fn lemma_partial_formulas(c: Seq<u8>, c_star: Seq<u8>)
    requires
        c.len() == c_star.len(),
    ensures
        mix(mix(c, c_star), c_star) == c,
        u_of_c_and_ustar(c, mix(c_star, c)) == mix(c, c_star),
        cstar_of_c_and_u(c, mix(c, c_star)) == c_star,
{
    assert forall|i: int| 0 <= i < c.len() implies #[trigger] mix(mix(c, c_star), c_star)[i]
        == c[i] && u_of_c_and_ustar(c, mix(c_star, c))[i] == mix(c, c_star)[i] && cstar_of_c_and_u(
        c,
        mix(c, c_star),
    )[i] == c_star[i] by {
        lemma_byte_identities(c[i], c_star[i]);
    }
    assert(mix(mix(c, c_star), c_star) =~= c);
    assert(u_of_c_and_ustar(c, mix(c_star, c)) =~= mix(c, c_star));
    assert(cstar_of_c_and_u(c, mix(c, c_star)) =~= c_star);
}

} // verus!
