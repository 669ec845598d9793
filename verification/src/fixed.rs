//! Fixed-point arithmetic: products, truncating division and clamping over
//! scaled `i64` values, together with the lemmas the network evaluation
//! proofs rest on.

use vstd::arithmetic::div_mod::{
    lemma_basic_div, lemma_div_is_ordered, lemma_div_multiples_vanish, lemma_div_nonincreasing,
    lemma_fundamental_div_mod,
};
use vstd::prelude::*;

use crate::{FP_SCALE, VALUE_CAP, WEIGHT_CAP};

verus! {

/// Largest magnitude `fp_mul` of a capped weight and a capped value can
/// reach: `WEIGHT_CAP * VALUE_CAP / FP_SCALE`.
pub const TERM_CAP: i64 = 8000000000;

/// Truncating (round-toward-zero) division of `p` by a positive `q`: the
/// semantics of the executable fixed-point operations.
pub open spec fn div_trunc(p: int, q: int) -> int {
    if p >= 0 {
        p / q
    } else {
        -((-p) / q)
    }
}

/// Fixed-point product: `a * b` rescaled by `FP_SCALE`, truncated toward
/// zero.
pub open spec fn fp_mul_spec(a: int, b: int) -> int {
    div_trunc(a * b, FP_SCALE as int)
}

/// Clamp `x` into the band `[-VALUE_CAP, VALUE_CAP]`.
pub open spec fn clamp_spec(x: int) -> int {
    if x < -(VALUE_CAP as int) {
        -(VALUE_CAP as int)
    } else if x > VALUE_CAP as int {
        VALUE_CAP as int
    } else {
        x
    }
}

/// Truncating division is bounded by the magnitude of its dividend.
pub proof fn lemma_div_trunc_magnitude(p: int, q: int, m: int)
    requires
        0 < q,
        -m <= p <= m,
        0 <= m,
    ensures
        -(m / q) <= div_trunc(p, q) <= m / q,
{
    if p >= 0 {
        lemma_div_is_ordered(p, m, q);
        lemma_div_is_ordered(0, p, q);
        assert(0int / q == 0) by {
            lemma_basic_div(0, q);
        }
    } else {
        lemma_div_is_ordered(-p, m, q);
        lemma_div_is_ordered(0, -p, q);
        assert(0int / q == 0) by {
            lemma_basic_div(0, q);
        }
    }
}

/// The magnitude of a fixed-point product of capped factors stays below
/// `TERM_CAP`.
pub proof fn lemma_fp_mul_term_cap(a: int, b: int)
    requires
        -(WEIGHT_CAP as int) <= a <= WEIGHT_CAP as int,
        -(VALUE_CAP as int) <= b <= VALUE_CAP as int,
    ensures
        -(TERM_CAP as int) <= fp_mul_spec(a, b) <= TERM_CAP as int,
{
    assert(-(WEIGHT_CAP as int * VALUE_CAP as int) <= a * b <= WEIGHT_CAP as int * VALUE_CAP
        as int) by (nonlinear_arith)
        requires
            -(WEIGHT_CAP as int) <= a <= WEIGHT_CAP as int,
            -(VALUE_CAP as int) <= b <= VALUE_CAP as int,
    ;
    lemma_div_trunc_magnitude(a * b, FP_SCALE as int, WEIGHT_CAP as int * VALUE_CAP as int);
}

/// Multiplying by the fixed-point unit is exact: a weight of `FP_SCALE`
/// (that is, 1.0) forwards a value unchanged.
pub proof fn lemma_fp_mul_unit(v: int)
    ensures
        fp_mul_spec(FP_SCALE as int, v) == v,
{
    if v >= 0 {
        assert((FP_SCALE as int * v) / (FP_SCALE as int) == v) by {
            lemma_div_multiples_vanish(v, FP_SCALE as int);
        }
    } else {
        assert(-(FP_SCALE as int * v) == FP_SCALE as int * (-v)) by (nonlinear_arith);
        assert((FP_SCALE as int * (-v)) / (FP_SCALE as int) == -v) by {
            lemma_div_multiples_vanish(-v, FP_SCALE as int);
        }
    }
}

/// Executable fixed-point product, computed on unsigned magnitudes so the
/// truncation direction is explicit.
pub fn fp_mul(a: i64, b: i64) -> (r: i64)
    requires
        -1000000000000 <= a as int <= 1000000000000,
        -1000000000000 <= b as int <= 1000000000000,
        -1000000000000000000 <= a as int * b as int <= 1000000000000000000,
    ensures
        r as int == fp_mul_spec(a as int, b as int),
{
    let neg: bool = (a < 0) != (b < 0);
    let am: u64 = if a >= 0 {
        a as u64
    } else {
        (-a) as u64
    };
    let bm: u64 = if b >= 0 {
        b as u64
    } else {
        (-b) as u64
    };
    proof {
        let ai = a as int;
        let bi = b as int;
        assert(am as int * bm as int == if ai * bi >= 0 {
            ai * bi
        } else {
            -(ai * bi)
        }) by (nonlinear_arith)
            requires
                am as int == if ai >= 0 {
                    ai
                } else {
                    -ai
                },
                bm as int == if bi >= 0 {
                    bi
                } else {
                    -bi
                },
        ;
    }
    let pm: u64 = am * bm;
    let qm: u64 = pm / 1000;
    proof {
        lemma_div_nonincreasing(pm as int, 1000);
        let ai = a as int;
        let bi = b as int;
        let p = ai * bi;
        assert((a < 0) != (b < 0) ==> p <= 0) by (nonlinear_arith)
            requires
                ai == a as int,
                bi == b as int,
                p == ai * bi,
        ;
        assert(!((a < 0) != (b < 0)) ==> p >= 0) by (nonlinear_arith)
            requires
                ai == a as int,
                bi == b as int,
                p == ai * bi,
        ;
        if p >= 0 {
            assert(pm as int == p);
            if neg {
                assert(p == 0);
                assert(qm == 0) by {
                    lemma_basic_div(0, 1000);
                }
            }
        } else {
            assert(pm as int == -p);
            assert(neg);
            assert(qm as int == (-p) / 1000);
        }
    }
    if neg && qm > 0 {
        -(qm as i64)
    } else {
        qm as i64
    }
}

/// Executable truncating division by a positive divisor.
pub fn div_trunc_exec(p: i64, q: i64) -> (r: i64)
    requires
        0 < q,
        -1000000000000000000 <= p as int <= 1000000000000000000,
    ensures
        r as int == div_trunc(p as int, q as int),
{
    let pm: u64 = if p >= 0 {
        p as u64
    } else {
        (-p) as u64
    };
    let qm: u64 = pm / (q as u64);
    proof {
        lemma_div_nonincreasing(pm as int, q as int);
    }
    if p < 0 && qm > 0 {
        -(qm as i64)
    } else {
        qm as i64
    }
}

/// Executable clamp into the activation band.
pub fn clamp_value(x: i64) -> (r: i64)
    ensures
        r as int == clamp_spec(x as int),
        -VALUE_CAP <= r <= VALUE_CAP,
{
    if x < -VALUE_CAP {
        -VALUE_CAP
    } else if x > VALUE_CAP {
        VALUE_CAP
    } else {
        x
    }
}

/// The exactness behind the split-link weight convention: feeding a value
/// through a unit-weight link and then through the original weight yields
/// the same contribution as the original single link.
pub proof fn lemma_split_contribution_exact(w: int, v: int)
    requires
        -(WEIGHT_CAP as int) <= w <= WEIGHT_CAP as int,
        -(VALUE_CAP as int) <= v <= VALUE_CAP as int,
    ensures
        fp_mul_spec(w, clamp_spec(fp_mul_spec(FP_SCALE as int, v))) == fp_mul_spec(w, v),
{
    lemma_fp_mul_unit(v);
    assert(clamp_spec(v) == v);
}

} // verus!
