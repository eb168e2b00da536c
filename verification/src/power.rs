//! Integer powers that report overflow.

use vstd::prelude::*;
use vstd::arithmetic::power::{
    pow,
    lemma_pow0,
    lemma_pow1,
    lemma_pow_adds,
    lemma_pow_multiplies,
    lemma_pow_positive,
};

verus! {

/// `b^(2h + r) = b^r · (b·b)^h`.
proof fn lemma_pow_halves(b: int, h: nat, r: nat)
    ensures
        pow(b, 2 * h + r) == pow(b, r) * pow(b * b, h),
{
    lemma_pow_adds(b, r, 2 * h);
    lemma_pow_multiplies(b, 2, h);
    lemma_pow_adds(b, 1, 1);
    lemma_pow1(b);
    assert(pow(b, 2) == b * b);
}

/// A positive base to a positive exponent is at least the base.
proof fn lemma_pow_at_least_base(b: int, h: nat)
    requires
        b >= 1,
        h >= 1,
    ensures
        pow(b, h) >= b,
{
    lemma_pow_adds(b, 1, (h - 1) as nat);
    lemma_pow1(b);
    lemma_pow_positive(b, (h - 1) as nat);
    assert(b * pow(b, (h - 1) as nat) >= b) by (nonlinear_arith)
        requires
            b >= 1,
            pow(b, (h - 1) as nat) >= 1,
    ;
}

/// `base` to the power `exp` by repeated squaring, or `None` where the
/// power does not fit the machine integer.
pub fn checked_pow(base: usize, exp: usize) -> (r: Option<usize>)
    ensures
        pow(base as int, exp as nat) <= usize::MAX ==> r is Some && r->0 == pow(
            base as int,
            exp as nat,
        ),
        pow(base as int, exp as nat) > usize::MAX ==> r is None,
{
    let mut result: usize = 1;
    let mut b: usize = base;
    let mut e: usize = exp;
    proof {
        lemma_pow0(base as int);
        if base > 0 {
            lemma_pow_positive(base as int, exp as nat);
        }
        assert(1 * pow(base as int, exp as nat) == pow(base as int, exp as nat));
    }
    while e > 0
        invariant
            result * pow(b as int, e as nat) == pow(base as int, exp as nat),
            result >= 1 || b == 0,
        decreases e,
    {
        let ghost h: nat = (e / 2) as nat;
        let ghost target = pow(base as int, exp as nat);
        let ghost sq = pow(b * b, h);
        proof {
            lemma_pow_halves(b as int, h, (e % 2) as nat);
            lemma_pow0(b as int);
            lemma_pow1(b as int);
            lemma_pow0(b * b);
            if b >= 1 {
                assert(b * b >= 1) by (nonlinear_arith)
                    requires
                        b >= 1,
                ;
                lemma_pow_positive(b * b, h);
                if h >= 1 {
                    lemma_pow_at_least_base(b * b, h);
                }
            }
        }
        if e % 2 == 1 {
            assert(target == result * (b * sq)) by (nonlinear_arith)
                requires
                    target == result * pow(b as int, e as nat),
                    pow(b as int, e as nat) == b * sq,
            ;
            match result.checked_mul(b) {
                None => {
                    assert(target > usize::MAX) by (nonlinear_arith)
                        requires
                            target == result * (b * sq),
                            result * b > usize::MAX,
                            sq >= 1,
                            b >= 1,
                            result >= 1,
                    ;
                    return None;
                },
                Some(v) => {
                    assert(v * sq == target) by (nonlinear_arith)
                        requires
                            target == result * (b * sq),
                            v == result * b,
                    ;
                    assert(v >= 1 || b == 0) by (nonlinear_arith)
                        requires
                            v == result * b,
                            result >= 1 || b == 0,
                    ;
                    result = v;
                },
            }
        } else {
            assert(target == result * sq) by (nonlinear_arith)
                requires
                    target == result * pow(b as int, e as nat),
                    pow(b as int, e as nat) == 1 * sq,
            ;
        }
        e = e / 2;
        if e > 0 {
            assert(b == 0 ==> b * b == 0) by (nonlinear_arith);
            match b.checked_mul(b) {
                None => {
                    assert(target > usize::MAX) by (nonlinear_arith)
                        requires
                            target == result * sq,
                            sq >= b * b,
                            b * b > usize::MAX,
                            result >= 1,
                    ;
                    return None;
                },
                Some(v) => {
                    b = v;
                },
            }
        } else {
            assert(sq == 1);
            assert(result * pow(b as int, 0) == target) by (nonlinear_arith)
                requires
                    result * sq == target,
                    sq == 1,
                    pow(b as int, 0) == 1,
            ;
        }
    }
    proof {
        lemma_pow0(b as int);
        assert(result * 1 == result);
    }
    Some(result)
}

} // verus!
