//! Numbers given by their decimal digits and a power of ten, as fixed-point
//! magnitudes.

use vstd::prelude::*;
use crate::decimal::{
    all_digits, digits_value, is_digit, lemma_digits_bound, lemma_digits_concat,
    lemma_nonzero_digits, lemma_pow10_monotone, lemma_zero_digits, pow10,
};
use crate::rounding::{lemma_round_ratio_is, lemma_round_ratio_nearest, round_ratio};
use crate::value::{FRACTION_DIGITS, LIMIT, SCALE};

verus! {

/// The bound beyond which the size of an exponent no longer matters.
pub const EXPONENT_CAP: i128 = 1_000_000_000_000_000_000_000_000_000_000;

/// The number that is `digits * 10^shift` units of `1 / SCALE`, as a
/// fixed-point magnitude: the nearest whole number of units, a tie going up.
/// There is none where the number as written is beyond the limit.
pub open spec fn fixed_point(digits: Seq<u8>, shift: int) -> Option<int> {
    let d = digits_value(digits) as int;
    if shift >= 0 {
        if d * pow10(shift as nat) <= LIMIT {
            Some(d * pow10(shift as nat))
        } else {
            None
        }
    } else {
        if d <= LIMIT * pow10((-shift) as nat) {
            Some(round_ratio(d, pow10((-shift) as nat) as int))
        } else {
            None
        }
    }
}

/// The mantissa without its decimal point, which stands at `point`.
pub open spec fn run_of(m: Seq<u8>, point: int) -> Seq<u8> {
    m.take(point) + m.skip(point + 1)
}

/// `x` held between the exponent caps.
pub open spec fn capped(x: int) -> int {
    if x > EXPONENT_CAP {
        EXPONENT_CAP as int
    } else if x < -EXPONENT_CAP {
        -EXPONENT_CAP as int
    } else {
        x
    }
}

/// A fixed-point magnitude lies between zero and the limit.
pub proof fn lemma_fixed_point_bounds(digits: Seq<u8>, shift: int)
    ensures
        fixed_point(digits, shift) matches Some(size) ==> 0 <= size <= LIMIT,
{
    let d = digits_value(digits) as int;
    if shift >= 0 {
        assert(d * pow10(shift as nat) >= 0) by (nonlinear_arith)
            requires
                d >= 0,
        ;
    } else {
        let den = pow10((-shift) as nat) as int;
        lemma_pow10_monotone((-shift) as nat, (-shift) as nat);
        lemma_round_ratio_nearest(d, den);
        let r = round_ratio(d, den);
        if d <= LIMIT * den {
            assert(r <= LIMIT) by (nonlinear_arith)
                requires
                    -den <= 2 * (d - r * den),
                    d <= LIMIT * den,
                    den > 0,
            ;
        }
    }
}

/// The fixed-point magnitude is the number as written where that is a whole
/// number of units, and else lies within half a unit of it.
pub proof fn lemma_fixed_point_nearest(digits: Seq<u8>, shift: int)
    ensures
        pow10(FRACTION_DIGITS as nat) == SCALE,
        shift >= 0 ==> (fixed_point(digits, shift) matches Some(size) ==> size == digits_value(digits)
            * pow10(shift as nat)),
        shift < 0 ==> (fixed_point(digits, shift) matches Some(size) ==> -pow10((-shift) as nat) < 2
            * (size * pow10((-shift) as nat) - digits_value(digits)) <= pow10((-shift) as nat)),
{
    reveal_with_fuel(pow10, 16);
    if shift < 0 {
        let den = pow10((-shift) as nat) as int;
        lemma_pow10_monotone((-shift) as nat, (-shift) as nat);
        lemma_round_ratio_nearest(digits_value(digits) as int, den);
    }
}

proof fn lemma_fixed_zero(digits: Seq<u8>, shift: int)
    requires
        digits_value(digits) == 0,
    ensures
        fixed_point(digits, shift) == Some(0int),
{
    if shift >= 0 {
        assert(0 * pow10(shift as nat) == 0);
    } else {
        let den = pow10((-shift) as nat) as int;
        lemma_pow10_monotone((-shift) as nat, (-shift) as nat);
        assert(LIMIT * den >= 0) by (nonlinear_arith)
            requires
                den > 0,
        ;
        assert(0 * den == 0);
        lemma_round_ratio_is(0, den, 0);
    }
}

proof fn lemma_fixed_far(digits: Seq<u8>, shift: int)
    requires
        digits_value(digits) >= 1,
        shift > 17,
    ensures
        fixed_point(digits, shift) == None::<int>,
{
    let d = digits_value(digits) as int;
    let p = pow10(shift as nat) as int;
    lemma_pow10_monotone(18, shift as nat);
    reveal_with_fuel(pow10, 19);
    assert(pow10(18) == 1_000_000_000_000_000_000);
    assert(d * p >= 1_000_000_000_000_000_000) by (nonlinear_arith)
        requires
            d >= 1,
            p >= 1_000_000_000_000_000_000,
    ;
}

proof fn lemma_fixed_deep(digits: Seq<u8>, shift: int)
    requires
        all_digits(digits),
        shift < 0,
        -shift > digits.len(),
    ensures
        fixed_point(digits, shift) == Some(0int),
{
    let d = digits_value(digits) as int;
    let k = (-shift) as nat;
    let h = pow10((k - 1) as nat) as int;
    let den = pow10(k) as int;
    assert(den == 10 * h);
    lemma_digits_bound(digits);
    lemma_pow10_monotone(digits.len(), (k - 1) as nat);
    assert(d < h);
    assert(d <= LIMIT * den) by (nonlinear_arith)
        requires
            0 <= d < h,
            den == 10 * h,
    ;
    assert(0 * den == 0);
    lemma_round_ratio_is(d, den, 0);
}

/// Where the units begin inside the digits, at `cut`: the digits before it
/// are the whole units, the first digit after it decides the rounding, and
/// the limit is kept if the whole units are below it, or equal to it with
/// nothing but zeros behind.
proof fn lemma_fixed_cut(digits: Seq<u8>, shift: int, cut: int)
    requires
        all_digits(digits),
        shift < 0,
        0 <= cut < digits.len(),
        cut == digits.len() + shift,
    ensures
        ({
            let whole = digits_value(digits.take(cut)) as int;
            let zeros = forall|i: int| cut <= i < digits.len() ==> digits[i] == 48;
            let up: int = if digits[cut] >= 53 {
                1
            } else {
                0
            };
            fixed_point(digits, shift) == if whole > LIMIT || (whole == LIMIT && !zeros) {
                None
            } else {
                Some(whole + up)
            }
        }),
{
    let k = (-shift) as nat;
    let front = digits.take(cut);
    let rest = digits.skip(cut);
    let tail = rest.skip(1);
    let d = digits_value(digits) as int;
    let whole = digits_value(front) as int;
    let r = digits_value(rest) as int;
    let den = pow10(k) as int;
    let h = pow10((k - 1) as nat) as int;
    let first = (rest[0] - 48) as int;
    let low = digits_value(tail) as int;
    let zeros = forall|i: int| cut <= i < digits.len() ==> digits[i] == 48;
    let up: int = if digits[cut] >= 53 {
        1
    } else {
        0
    };
    assert(digits =~= front + rest);
    assert(rest.len() == k);
    lemma_digits_concat(front, rest);
    assert(d == whole * den + r);
    assert(all_digits(rest)) by {
        assert forall|i: int| 0 <= i < rest.len() implies is_digit(#[trigger] rest[i]) by {
            assert(rest[i] == digits[cut + i]);
        }
    }
    assert(all_digits(tail)) by {
        assert forall|i: int| 0 <= i < tail.len() implies is_digit(#[trigger] tail[i]) by {
            assert(tail[i] == rest[i + 1]);
        }
    }
    lemma_digits_bound(rest);
    lemma_digits_bound(tail);
    lemma_pow10_monotone(k, k);
    lemma_pow10_monotone((k - 1) as nat, (k - 1) as nat);
    assert(den == 10 * h);
    let one = seq![rest[0]];
    assert(rest =~= one + tail);
    lemma_digits_concat(one, tail);
    assert(one.drop_last() =~= Seq::<u8>::empty());
    assert(digits_value(one.drop_last()) == 0);
    assert(digits_value(one) == first);
    assert(is_digit(rest[0]));
    assert(r == first * h + low);
    assert(rest[0] == digits[cut]);
    // zeros behind the cut, or not
    if zeros {
        assert forall|i: int| 0 <= i < rest.len() implies rest[i] == 48 by {
            assert(rest[i] == digits[cut + i]);
        }
        lemma_zero_digits(rest);
    } else {
        let i = choose|i: int| cut <= i < digits.len() && digits[i] != 48;
        assert(rest[i - cut] == digits[i]);
        lemma_nonzero_digits(rest, i - cut);
    }
    // the rounding is decided by the first digit behind the cut
    assert((up == 1) <==> 2 * r >= den) by (nonlinear_arith)
        requires
            r == first * h + low,
            0 <= low < h,
            0 <= first <= 9,
            den == 10 * h,
            up == (if first >= 5 {
                1int
            } else {
                0int
            }),
    ;
    // the limit
    if whole > LIMIT {
        assert(d > LIMIT * den) by (nonlinear_arith)
            requires
                d == whole * den + r,
                whole >= LIMIT + 1,
                r >= 0,
                den >= 1,
        ;
    } else if whole == LIMIT {
        assert(d <= LIMIT * den <==> r == 0) by (nonlinear_arith)
            requires
                d == whole * den + r,
                whole == LIMIT,
                r >= 0,
        ;
    } else {
        assert(d <= LIMIT * den) by (nonlinear_arith)
            requires
                d == whole * den + r,
                whole + 1 <= LIMIT,
                0 <= r < den,
        ;
    }
    // the nearest whole number of units
    assert(-den <= 2 * (d - (whole + up) * den) < den) by (nonlinear_arith)
        requires
            d == whole * den + r,
            0 <= r < den,
            (up == 1) <==> 2 * r >= den,
            up == 0 || up == 1,
    ;
    assert(d >= 0);
    lemma_round_ratio_is(d, den, whole + up);
}

fn digit_at(m: &[u8], point: usize, at: usize) -> (d: u8)
    requires
        point < m.len(),
        at < m.len() - 1,
    ensures
        d == run_of(m@, point as int)[at as int],
{
    if at < point {
        m[at]
    } else {
        m[at + 1]
    }
}

/// The number that the first `upto` digits denote, or one more than the limit
/// where it is beyond the limit.
fn leading_value(m: &[u8], point: usize, upto: usize) -> (q: u64)
    requires
        point < m.len(),
        upto <= m.len() - 1,
        all_digits(run_of(m@, point as int)),
    ensures
        q <= LIMIT + 1,
        q <= LIMIT ==> q == digits_value(run_of(m@, point as int).take(upto as int)),
        q > LIMIT ==> digits_value(run_of(m@, point as int).take(upto as int)) > LIMIT,
{
    let ghost run = run_of(m@, point as int);
    let mut q: u64 = 0;
    let mut i: usize = 0;
    while i < upto
        invariant
            i <= upto,
            point < m.len(),
            upto <= m.len() - 1,
            run == run_of(m@, point as int),
            all_digits(run),
            q <= LIMIT + 1,
            q <= LIMIT ==> q == digits_value(run.take(i as int)),
            q > LIMIT ==> digits_value(run.take(i as int)) > LIMIT,
        decreases upto - i,
    {
        proof {
            assert(run.take(i as int + 1).drop_last() =~= run.take(i as int));
            assert(is_digit(run[i as int]));
        }
        let d: u64 = (digit_at(m, point, i) - 48) as u64;
        if q <= 99_900_000_000_000_000 {
            q = q * 10 + d;
            if q > 99_900_000_000_000_000 {
                q = 99_900_000_000_000_001;
            }
        }
        i += 1;
    }
    q
}

fn rest_is_zero(m: &[u8], point: usize, from: usize) -> (zero: bool)
    requires
        point < m.len(),
        from <= m.len() - 1,
    ensures
        zero == (forall|i: int|
            from <= i < run_of(m@, point as int).len() ==> run_of(m@, point as int)[i] == 48),
{
    let ghost run = run_of(m@, point as int);
    let mut i: usize = from;
    while i < m.len() - 1
        invariant
            from <= i <= m.len() - 1,
            point < m.len(),
            run == run_of(m@, point as int),
            forall|j: int| from <= j < i ==> run[j] == 48,
        decreases m.len() - i,
    {
        if digit_at(m, point, i) != 48 {
            return false;
        }
        i += 1;
    }
    true
}

/// The fixed-point magnitude of the number whose digits are those of `m`
/// around the point at `point`, written with the exponent `written`, of which
/// `exponent` is the capped form.
pub(crate) fn to_fixed(m: &[u8], point: usize, exponent: i128, Ghost(written): Ghost<int>) -> (size: Option<i64>)
    requires
        point < m.len(),
        all_digits(run_of(m@, point as int)),
        exponent == capped(written),
    ensures
        match fixed_point(
            run_of(m@, point as int),
            written - (m.len() - 1 - point) + FRACTION_DIGITS,
        ) {
            Some(x) => size == Some(x as i64) && 0 <= x <= LIMIT,
            None => size is None,
        },
{
    let ghost run = run_of(m@, point as int);
    let ghost d = digits_value(run) as int;
    let n: usize = m.len() - 1;
    let fraction: usize = n - point;
    let shift: i128 = exponent - (fraction as i128) + 15;
    let ghost true_shift = written - fraction + 15;
    proof {
        lemma_fixed_point_bounds(run, true_shift);
        assert(run.take(n as int) =~= run);
    }
    if shift >= 0 {
        let q = leading_value(m, point, n);
        if q == 0 {
            proof {
                lemma_fixed_zero(run, true_shift);
            }
            return Some(0);
        }
        if q > 99_900_000_000_000_000 {
            proof {
                lemma_pow10_monotone(true_shift as nat, true_shift as nat);
                assert(d * pow10(true_shift as nat) > LIMIT) by (nonlinear_arith)
                    requires
                        d > LIMIT,
                        pow10(true_shift as nat) >= 1,
                ;
            }
            return None;
        }
        if shift > 17 {
            proof {
                lemma_fixed_far(run, true_shift);
            }
            return None;
        }
        let mut v: u64 = q;
        let mut i: i128 = 0;
        proof {
            assert(d * pow10(0) == d) by (nonlinear_arith)
                requires
                    pow10(0) == 1,
            ;
        }
        while i < shift
            invariant
                0 <= i <= shift <= 17,
                shift == true_shift,
                true_shift == written - (m.len() - 1 - point) + FRACTION_DIGITS,
                run == run_of(m@, point as int),
                d == digits_value(run),
                v == d * pow10(i as nat),
                v <= LIMIT,
            decreases shift - i,
        {
            proof {
                assert(d * pow10((i + 1) as nat) == 10 * (d * pow10(i as nat))) by (nonlinear_arith)
                    requires
                        pow10((i + 1) as nat) == 10 * pow10(i as nat),
                ;
            }
            v = v * 10;
            i += 1;
            if v > 99_900_000_000_000_000 {
                proof {
                    lemma_pow10_monotone(i as nat, shift as nat);
                    assert(d * pow10(shift as nat) >= d * pow10(i as nat)) by (nonlinear_arith)
                        requires
                            d >= 0,
                            pow10(i as nat) <= pow10(shift as nat),
                    ;
                }
                return None;
            }
        }
        Some(v as i64)
    } else {
        let k: i128 = -shift;
        if k > n as i128 {
            proof {
                lemma_fixed_deep(run, true_shift);
            }
            return Some(0);
        }
        let cut: usize = n - (k as usize);
        proof {
            assert(shift == true_shift);
            lemma_fixed_cut(run, true_shift, cut as int);
        }
        let q = leading_value(m, point, cut);
        if q > 99_900_000_000_000_000 {
            return None;
        }
        let zero = rest_is_zero(m, point, cut);
        if q == 99_900_000_000_000_000 && !zero {
            return None;
        }
        let first = digit_at(m, point, cut);
        if first >= 53 {
            Some((q + 1) as i64)
        } else {
            Some(q as i64)
        }
    }
}

} // verus!
