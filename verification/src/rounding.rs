//! Rounding a ratio to the nearest whole number.

use vstd::prelude::*;
use vstd::arithmetic::div_mod::lemma_fundamental_div_mod_converse;

verus! {

/// The whole number nearest to `num / den`, for a positive `den`; of two that
/// are equally near, the one farther from zero.
pub open spec fn round_ratio(num: int, den: int) -> int {
    if num >= 0 {
        (2 * num + den) / (2 * den)
    } else {
        -((2 * (-num) + den) / (2 * den))
    }
}

/// `round_ratio` yields the nearest whole number: twice the distance to the
/// ratio is at most one, and a tie goes away from zero.
pub proof fn lemma_round_ratio_nearest(num: int, den: int)
    requires
        den > 0,
    ensures
        -den <= 2 * (num - round_ratio(num, den) * den) <= den,
        num >= 0 ==> 2 * (num - round_ratio(num, den) * den) < den,
        num < 0 ==> -den < 2 * (num - round_ratio(num, den) * den),
        num >= 0 ==> round_ratio(num, den) >= 0,
        num <= 0 ==> round_ratio(num, den) <= 0,
{
    let size = if num >= 0 {
        num
    } else {
        -num
    };
    let q = (2 * size + den) / (2 * den);
    assert(q * (2 * den) <= 2 * size + den < q * (2 * den) + 2 * den && q >= 0) by (nonlinear_arith)
        requires
            q == (2 * size + den) / (2 * den),
            den > 0,
            size >= 0,
    ;
    assert(q * (2 * den) == 2 * (q * den)) by (nonlinear_arith);
    assert((-q) * den == -(q * den)) by (nonlinear_arith);
    if size == 0 {
        assert(q == 0) by (nonlinear_arith)
            requires
                q >= 0,
                q * (2 * den) <= den,
                den > 0,
        ;
    }
}

/// A whole number within half of a ratio that is not negative, the upper
/// half excluded, is what `round_ratio` yields.
pub proof fn lemma_round_ratio_is(num: int, den: int, r: int)
    requires
        den > 0,
        num >= 0,
        -den <= 2 * (num - r * den) < den,
    ensures
        round_ratio(num, den) == r,
{
    let rest = 2 * num + den - r * (2 * den);
    assert(r * (2 * den) == 2 * (r * den)) by (nonlinear_arith);
    lemma_fundamental_div_mod_converse(2 * num + den, 2 * den, r, rest);
}

} // verus!
