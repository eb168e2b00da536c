//! Base-q digits of a layer number.
//!
//! A layer `z` below `q^t` is a word of `t` digits in base `q`. The digit of
//! weight `q^i` tells which node of y-section `t - 1 - i` is unpaired in
//! that layer, and the companion of a layer under a pair of nodes is the
//! layer with one digit replaced.

use vstd::prelude::*;
use vstd::arithmetic::power::{pow, lemma_pow0, lemma_pow_positive, lemma_pow_adds, lemma_pow1};
use vstd::arithmetic::div_mod::{
    lemma_div_denominator,
    lemma_fundamental_div_mod,
    lemma_fundamental_div_mod_converse,
    lemma_add_mod_noop_right,
    lemma_small_mod,
};

verus! {

/// The digit of weight `q^i` in the base-`q` representation of `z`.
pub open spec fn digit(z: nat, q: nat, i: nat) -> nat {
    ((z as int / pow(q as int, i)) % (q as int)) as nat
}

/// `z` with the digit of weight `q^i` replaced by `x`.
pub open spec fn with_digit(z: nat, q: nat, i: nat, x: nat) -> int {
    z + (x - digit(z, q, i)) * pow(q as int, i)
}

/// The layer that the modular companion formula gives: `z` moved by the
/// difference of the two x-coordinates times the weight of the y-section,
/// modulo the number of layers.
pub open spec fn companion_of(z: nat, x: nat, z_y: nat, weight: nat, alpha: nat) -> nat {
    ((z + (x - z_y) * weight) % (alpha as int)) as nat
}

/// The value of a word of digits, most significant digit first.
pub open spec fn from_digits(d: Seq<usize>, q: nat) -> nat
    decreases d.len(),
{
    if d.len() == 0 {
        0
    } else {
        from_digits(d.drop_last(), q) * q + d.last() as nat
    }
}

/// Powers of a positive base are positive, and each is the base times the
/// one before.
pub proof fn lemma_pow_step(q: nat, i: nat)
    requires
        q > 0,
    ensures
        pow(q as int, 0) == 1,
        pow(q as int, i) > 0,
        pow(q as int, i + 1) == q * pow(q as int, i),
{
    lemma_pow0(q as int);
    lemma_pow_positive(q as int, i);
    lemma_pow_adds(q as int, 1, i);
    lemma_pow1(q as int);
}

/// A power with the smaller exponent is the smaller one.
pub proof fn lemma_pow_monotonic(q: nat, i: nat, j: nat)
    requires
        q > 0,
        i <= j,
    ensures
        pow(q as int, i) <= pow(q as int, j),
        pow(q as int, j) == pow(q as int, i) * pow(q as int, (j - i) as nat),
    decreases j - i,
{
    lemma_pow_adds(q as int, i, (j - i) as nat);
    lemma_pow_positive(q as int, (j - i) as nat);
    lemma_pow_positive(q as int, i);
    assert(pow(q as int, i) <= pow(q as int, i) * pow(q as int, (j - i) as nat))
        by (nonlinear_arith)
        requires
            pow(q as int, i) > 0,
            pow(q as int, (j - i) as nat) >= 1,
    ;
}

/// The lowest digit is the remainder, and every other digit is a digit of
/// the quotient.
pub proof fn lemma_digit_step(z: nat, q: nat, i: nat)
    requires
        q > 0,
    ensures
        digit(z, q, 0) == z % q,
        digit(z, q, i + 1) == digit(z / q, q, i),
{
    lemma_pow_step(q, i);
    lemma_div_denominator(z as int, q as int, pow(q as int, i));
}

/// Below `q^t`, dividing by `q` leaves a number below `q^(t-1)`, and above
/// the top no digit is left.
pub proof fn lemma_quotient_bound(z: nat, q: nat, t: nat)
    requires
        q > 0,
        t > 0,
        z < pow(q as int, t),
    ensures
        z / q < pow(q as int, (t - 1) as nat),
{
    lemma_pow_step(q, (t - 1) as nat);
    lemma_fundamental_div_mod(z as int, q as int);
    let p = pow(q as int, (t - 1) as nat);
    let w = z as int / q as int;
    assert(w < p) by (nonlinear_arith)
        requires
            q > 0,
            z == q * w + (z as int % q as int),
            0 <= (z as int % q as int),
            z < q * p,
    ;
}

/// A quotient and a remainder below the bounds make a number below `q^t`.
proof fn lemma_compose_bound(w: int, r: int, q: nat, t: nat)
    requires
        q > 0,
        t > 0,
        0 <= w < pow(q as int, (t - 1) as nat),
        0 <= r < q,
    ensures
        0 <= q * w + r < pow(q as int, t),
        (q * w + r) / (q as int) == w,
        (q * w + r) % (q as int) == r,
{
    lemma_pow_step(q, (t - 1) as nat);
    let p = pow(q as int, (t - 1) as nat);
    assert(0 <= q * w + r < q * p) by (nonlinear_arith)
        requires
            q > 0,
            0 <= w < p,
            0 <= r < q,
    ;
    lemma_fundamental_div_mod_converse(q * w + r, q as int, w, r);
}

/// Replacing one digit of a layer below `q^t` gives a layer below `q^t`
/// that has the new digit at that place and the old digits elsewhere.
pub proof fn lemma_with_digit(z: nat, q: nat, t: nat, i: nat, x: nat)
    requires
        q > 0,
        i < t,
        z < pow(q as int, t),
        x < q,
    ensures
        0 <= with_digit(z, q, i, x) < pow(q as int, t),
        digit(with_digit(z, q, i, x) as nat, q, i) == x,
        forall|j: nat| j != i ==> digit(with_digit(z, q, i, x) as nat, q, j) == digit(z, q, j),
    decreases i,
{
    let w = z / q;
    let r = z % q;
    lemma_fundamental_div_mod(z as int, q as int);
    lemma_quotient_bound(z, q, t);
    lemma_digit_step(z, q, 0);
    if i == 0 {
        lemma_pow_step(q, 0);
        let z2 = with_digit(z, q, 0, x);
        let d = digit(z, q, 0) as int;
        let p = pow(q as int, 0);
        assert(z2 == q * w + x) by (nonlinear_arith)
            requires
                z2 == z + (x - d) * p,
                p == 1,
                d == r,
                z == q * w + r,
        ;
        lemma_compose_bound(w as int, x as int, q, t);
        lemma_digit_step(z2 as nat, q, 0);
        assert forall|j: nat| j != 0 implies digit(z2 as nat, q, j) == digit(z, q, j) by {
            lemma_digit_step(z2 as nat, q, (j - 1) as nat);
            lemma_digit_step(z, q, (j - 1) as nat);
        }
    } else {
        let i1 = (i - 1) as nat;
        lemma_with_digit(w, q, (t - 1) as nat, i1, x);
        let w2 = with_digit(w, q, i1, x);
        let z2 = with_digit(z, q, i, x);
        lemma_digit_step(z, q, i1);
        lemma_pow_step(q, i1);
        let d = digit(z, q, i) as int;
        let p = pow(q as int, i1);
        assert(z2 == q * w2 + r) by (nonlinear_arith)
            requires
                z2 == z + (x - d) * (q * p),
                w2 == w + (x - d) * p,
                z == q * w + r,
        ;
        lemma_compose_bound(w2, r as int, q, t);
        lemma_digit_step(z2 as nat, q, 0);
        assert forall|j: nat| j != i implies digit(z2 as nat, q, j) == digit(z, q, j) by {
            if j > 0 {
                lemma_digit_step(z2 as nat, q, (j - 1) as nat);
                lemma_digit_step(z, q, (j - 1) as nat);
            }
        }
        lemma_digit_step(z2 as nat, q, i1);
    }
}

/// Every digit is below the base.
pub proof fn lemma_digit_bound(z: nat, q: nat, i: nat)
    requires
        q > 0,
    ensures
        digit(z, q, i) < q,
{
    lemma_pow_step(q, i);
}

/// Under the digit of the layer itself, the modular companion formula
/// replaces that digit: nothing wraps around.
pub proof fn lemma_companion_is_with_digit(z: nat, q: nat, t: nat, i: nat, x: nat)
    requires
        q > 0,
        i < t,
        z < pow(q as int, t),
        x < q,
    ensures
        companion_of(z, x, digit(z, q, i), pow(q as int, i) as nat, pow(q as int, t) as nat)
            == with_digit(z, q, i, x),
{
    lemma_with_digit(z, q, t, i, x);
    lemma_pow_step(q, i);
    lemma_pow_step(q, t);
    lemma_small_mod(with_digit(z, q, i, x) as nat, pow(q as int, t) as nat);
}

/// The companion of the companion, with the two x-coordinates exchanged,
/// is the layer itself.
pub proof fn lemma_companion_involution(z: nat, x: nat, z_y: nat, weight: nat, alpha: nat)
    requires
        z < alpha,
    ensures
        companion_of(companion_of(z, x, z_y, weight, alpha), z_y, x, weight, alpha) == z,
{
    let a = z + (x - z_y) * weight;
    let b = (z_y - x) * weight;
    lemma_add_mod_noop_right(b, a, alpha as int);
    assert(a + b == z) by (nonlinear_arith)
        requires
            a == z + (x - z_y) * weight,
            b == (z_y - x) * weight,
    ;
    assert((a % (alpha as int)) + b == b + (a % (alpha as int)));
    lemma_small_mod(z, alpha);
}

/// The digits of a layer below `q^t`, most significant first, are its
/// base-`q` representation: they add up to the layer.
pub proof fn lemma_from_digits(z: nat, q: nat, t: nat, d: Seq<usize>)
    requires
        q > 0,
        z < pow(q as int, t),
        d.len() == t,
        forall|y: int| 0 <= y < t ==> d[y] as nat == digit(z, q, (t - 1 - y) as nat),
    ensures
        from_digits(d, q) == z,
    decreases t,
{
    if t == 0 {
        lemma_pow0(q as int);
    } else {
        let w = z / q;
        lemma_quotient_bound(z, q, t);
        assert forall|y: int| 0 <= y < t - 1 implies d.drop_last()[y] as nat == digit(
            w,
            q,
            (t - 2 - y) as nat,
        ) by {
            lemma_digit_step(z, q, (t - 2 - y) as nat);
        }
        lemma_from_digits(w, q, (t - 1) as nat, d.drop_last());
        lemma_digit_step(z, q, 0);
        lemma_fundamental_div_mod(z as int, q as int);
        assert(w * q + (z % q) == z) by (nonlinear_arith)
            requires
                z == q * w + (z % q),
        ;
    }
}

} // verus!
