//! Exact comparison of split scores.
//!
//! Split scores are ratios of wide integers. Cross-multiplying them directly
//! can overflow `u128`, so the comparison first compares the integer parts
//! and then cross-multiplies only the remainders, which stay below the
//! denominators.
use vstd::arithmetic::div_mod::lemma_fundamental_div_mod;
use vstd::prelude::*;

verus! {

/// Largest denominator the comparison accepts.
pub const DENOM_LIMIT: u128 = 0x1_0000_0000_0000_0000;

/// Integer division rounding toward zero, as the leaf means and ensemble
/// averages use.
pub open spec fn div_toward_zero(s: int, t: int) -> int {
    if s >= 0 {
        s / t
    } else {
        -((-s) / t)
    }
}

proof fn lemma_frac_cmp(
    a1: int,
    d1: int,
    q1: int,
    r1: int,
    a2: int,
    d2: int,
    q2: int,
    r2: int,
)
    by (nonlinear_arith)
    requires
        a1 == d1 * q1 + r1,
        a2 == d2 * q2 + r2,
        0 <= r1 < d1,
        0 <= r2 < d2,
    ensures
        (a1 * d2 > a2 * d1) <==> (q1 > q2 || (q1 == q2 && r1 * d2 > r2 * d1)),
{
    assert(a1 * d2 == q1 * (d1 * d2) + r1 * d2);
    assert(a2 * d1 == q2 * (d1 * d2) + r2 * d1);
    assert(r1 * d2 < d1 * d2);
    assert(r2 * d1 < d1 * d2);
    assert(r1 * d2 >= 0);
    assert(r2 * d1 >= 0);
    if q1 > q2 {
        assert((q1 - q2) * (d1 * d2) >= d1 * d2);
    }
    if q2 > q1 {
        assert((q2 - q1) * (d1 * d2) >= d1 * d2);
    }
}

/// Decides `a1 / d1 > a2 / d2` exactly, as the rationals compare.
pub fn frac_gt(a1: u128, d1: u128, a2: u128, d2: u128) -> (r: bool)
    requires
        0 < d1 <= DENOM_LIMIT,
        0 < d2 <= DENOM_LIMIT,
    ensures
        r <==> a1 * d2 > a2 * d1,
{
    let q1 = a1 / d1;
    let r1 = a1 % d1;
    let q2 = a2 / d2;
    let r2 = a2 % d2;
    proof {
        lemma_fundamental_div_mod(a1 as int, d1 as int);
        lemma_fundamental_div_mod(a2 as int, d2 as int);
        lemma_frac_cmp(
            a1 as int,
            d1 as int,
            q1 as int,
            r1 as int,
            a2 as int,
            d2 as int,
            q2 as int,
            r2 as int,
        );
        assert(r1 * d2 < DENOM_LIMIT * DENOM_LIMIT) by (nonlinear_arith)
            requires
                0 <= r1 < d1 <= DENOM_LIMIT,
                0 < d2 <= DENOM_LIMIT,
        {}
        assert(r2 * d1 < DENOM_LIMIT * DENOM_LIMIT) by (nonlinear_arith)
            requires
                0 <= r2 < d2 <= DENOM_LIMIT,
                0 < d1 <= DENOM_LIMIT,
        {}
    }
    if q1 != q2 {
        q1 > q2
    } else {
        r1 * d2 > r2 * d1
    }
}

/// From `a1/d1 <= a2/d2` and `a2/d2 < a3/d3` follows `a1/d1 < a3/d3`, in
/// cross-multiplied form.
pub proof fn lemma_frac_le_lt_trans(a1: int, d1: int, a2: int, d2: int, a3: int, d3: int)
    requires
        d1 > 0,
        d2 > 0,
        d3 > 0,
        a1 * d2 <= a2 * d1,
        a2 * d3 < a3 * d2,
    ensures
        a1 * d3 < a3 * d1,
{
    assert((a1 * d2) * d3 <= (a2 * d1) * d3) by (nonlinear_arith)
        requires
            d3 > 0,
            a1 * d2 <= a2 * d1,
    {}
    assert((a2 * d3) * d1 < (a3 * d2) * d1) by (nonlinear_arith)
        requires
            d1 > 0,
            a2 * d3 < a3 * d2,
    {}
    assert((a1 * d2) * d3 == (a1 * d3) * d2) by (nonlinear_arith);
    assert((a2 * d1) * d3 == (a2 * d3) * d1) by (nonlinear_arith);
    assert((a3 * d2) * d1 == (a3 * d1) * d2) by (nonlinear_arith);
    assert((a1 * d3) * d2 < (a3 * d1) * d2);
    assert(a1 * d3 < a3 * d1) by (nonlinear_arith)
        requires
            d2 > 0,
            (a1 * d3) * d2 < (a3 * d1) * d2,
    {}
}

} // verus!
