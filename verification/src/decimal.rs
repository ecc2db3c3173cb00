//! Runs of decimal digits and the numbers they denote.

use vstd::prelude::*;

verus! {

/// An ASCII decimal digit.
pub open spec fn is_digit(b: u8) -> bool {
    48 <= b && b <= 57
}

/// Every byte of `s` is a digit.
pub open spec fn all_digits(s: Seq<u8>) -> bool {
    forall|i: int| 0 <= i < s.len() ==> is_digit(#[trigger] s[i])
}

/// The end of the run of digits that starts at `from`.
pub open spec fn digits_end(s: Seq<u8>, from: int) -> int
    decreases s.len() - from,
{
    if from >= s.len() {
        from
    } else if !is_digit(s[from]) {
        from
    } else {
        digits_end(s, from + 1)
    }
}

/// The number that a sequence of digits denotes.
pub open spec fn digits_value(ds: Seq<u8>) -> nat
    decreases ds.len(),
{
    if ds.len() == 0 {
        0
    } else {
        digits_value(ds.drop_last()) * 10 + (ds.last() - 48) as nat
    }
}

/// Ten to the power `n`.
pub open spec fn pow10(n: nat) -> nat
    decreases n,
{
    if n == 0 {
        1
    } else {
        10 * pow10((n - 1) as nat)
    }
}

/// The powers of ten grow, and none is zero.
pub proof fn lemma_pow10_monotone(a: nat, b: nat)
    requires
        a <= b,
    ensures
        pow10(a) <= pow10(b),
        pow10(a) >= 1,
    decreases b,
{
    if a < b {
        lemma_pow10_monotone(a, (b - 1) as nat);
    } else if a > 0 {
        lemma_pow10_monotone((a - 1) as nat, (a - 1) as nat);
    }
}

/// What `digits_end` finds: a run of digits that a non-digit, or the end of
/// the text, closes.
pub proof fn lemma_digits_end(s: Seq<u8>, from: int)
    requires
        0 <= from <= s.len(),
    ensures
        from <= digits_end(s, from) <= s.len(),
        forall|i: int| from <= i < digits_end(s, from) ==> is_digit(#[trigger] s[i]),
        digits_end(s, from) < s.len() ==> !is_digit(s[digits_end(s, from)]),
    decreases s.len() - from,
{
    if from < s.len() && is_digit(s[from]) {
        lemma_digits_end(s, from + 1);
    }
}

/// Digits written one after the other: the first ones count for as many
/// powers of ten more as digits follow them.
pub proof fn lemma_digits_concat(a: Seq<u8>, b: Seq<u8>)
    ensures
        digits_value(a + b) == digits_value(a) * pow10(b.len()) + digits_value(b),
    decreases b.len(),
{
    if b.len() == 0 {
        assert(a + b =~= a);
        assert(digits_value(a) * 1 == digits_value(a));
    } else {
        let init = b.drop_last();
        lemma_digits_concat(a, init);
        assert((a + b).drop_last() =~= a + init);
        assert((a + b).last() == b.last());
        let d = (b.last() - 48) as nat;
        let p = pow10(init.len());
        assert((digits_value(a) * p + digits_value(init)) * 10 + d == digits_value(a) * (10 * p) + (
        digits_value(init) * 10 + d)) by (nonlinear_arith);
    }
}

/// Zeros denote zero.
pub proof fn lemma_zero_digits(z: Seq<u8>)
    requires
        forall|i: int| 0 <= i < z.len() ==> z[i] == 48,
    ensures
        digits_value(z) == 0,
    decreases z.len(),
{
    if z.len() > 0 {
        lemma_zero_digits(z.drop_last());
    }
}

/// A run that holds a digit other than zero denotes more than zero.
pub proof fn lemma_nonzero_digits(ds: Seq<u8>, at: int)
    requires
        all_digits(ds),
        0 <= at < ds.len(),
        ds[at] != 48,
    ensures
        digits_value(ds) > 0,
    decreases ds.len(),
{
    assert(is_digit(ds[at]));
    assert(is_digit(ds[ds.len() - 1]));
    if at < ds.len() - 1 {
        let init = ds.drop_last();
        assert forall|i: int| 0 <= i < init.len() implies is_digit(#[trigger] init[i]) by {
            assert(init[i] == ds[i]);
        }
        lemma_nonzero_digits(init, at);
    }
}

/// A run of `n` digits denotes a number below ten to the power `n`.
pub proof fn lemma_digits_bound(ds: Seq<u8>)
    requires
        all_digits(ds),
    ensures
        digits_value(ds) < pow10(ds.len()),
    decreases ds.len(),
{
    if ds.len() > 0 {
        let init = ds.drop_last();
        assert forall|i: int| 0 <= i < init.len() implies is_digit(#[trigger] init[i]) by {
            assert(init[i] == ds[i]);
        }
        lemma_digits_bound(init);
        assert(is_digit(ds[ds.len() - 1]));
    }
}

/// Finds the end of the run of digits that starts at `from`.
pub fn scan_digits(data: &[u8], from: usize) -> (end: usize)
    ensures
        end == digits_end(data@, from as int),
{
    let mut end: usize = from;
    while end < data.len() && 48 <= data[end] && data[end] <= 57
        invariant
            from <= end,
            digits_end(data@, end as int) == digits_end(data@, from as int),
        decreases data.len() - end,
    {
        end += 1;
    }
    end
}

} // verus!
