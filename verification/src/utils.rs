//! Rounding helpers over plain 128-bit integers.

use vstd::prelude::*;

verus! {

/// Rounds `value` up to the nearest multiple of `precision`.
pub fn round_up(value: u128, precision: u128) -> (r: u128)
    requires
        precision >= 1,
        value + precision - 1 <= u128::MAX,
    ensures
        r == ((value + precision - 1) / (precision as int)) * precision,
        r % precision == 0,
        r >= value,
        r < value + precision,
{
    let q = (value + (precision - 1)) / precision;
    proof {
        let k = (value + precision - 1) as int;
        let p = precision as int;
        vstd::arithmetic::div_mod::lemma_fundamental_div_mod(k, p);
        assert(0 <= k % p < p) by (nonlinear_arith)
            requires p > 0;
        assert((k / p) * p <= k) by (nonlinear_arith)
            requires p > 0, k >= 0, k == p * (k / p) + k % p;
        assert((k / p) * p >= k - p + 1) by (nonlinear_arith)
            requires p > 0, k >= 0, k == p * (k / p) + k % p, k % p < p;
        assert(((k / p) * p) % p == 0) by (nonlinear_arith)
            requires p > 0;
    }
    q * precision
}

/// Rounds `value` down to the nearest multiple of `precision`.
pub fn round_down(value: u128, precision: u128) -> (r: u128)
    requires
        precision >= 1,
    ensures
        r == (value / precision) * precision,
        r % precision == 0,
        r <= value,
        value - r < precision,
{
    let q = value / precision;
    proof {
        let k = value as int;
        let p = precision as int;
        vstd::arithmetic::div_mod::lemma_fundamental_div_mod(k, p);
        assert(0 <= k % p < p) by (nonlinear_arith)
            requires p > 0;
        assert((k / p) * p <= k) by (nonlinear_arith)
            requires p > 0, k >= 0, k == p * (k / p) + k % p;
        assert(((k / p) * p) % p == 0) by (nonlinear_arith)
            requires p > 0;
    }
    q * precision
}

} // verus!
