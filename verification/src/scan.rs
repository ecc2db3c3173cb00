//! Searching a byte sequence for the next occurrence of a byte.

use vstd::prelude::*;

verus! {

/// The first index at or after `from` that holds `byte`, or the length of `s`
/// when there is none. An index at or beyond the end stays where it is.
pub open spec fn first_at_or_after(s: Seq<u8>, from: int, byte: u8) -> int
    decreases s.len() - from,
{
    if from >= s.len() {
        from
    } else if s[from] == byte {
        from
    } else {
        first_at_or_after(s, from + 1, byte)
    }
}

/// What `first_at_or_after` finds: the result lies between `from` and the end,
/// no byte before it equals `byte`, and it stops on `byte` unless it ran out.
pub proof fn lemma_first_at_or_after(s: Seq<u8>, from: int, byte: u8)
    requires
        0 <= from <= s.len(),
    ensures
        from <= first_at_or_after(s, from, byte) <= s.len(),
        forall|i: int| from <= i < first_at_or_after(s, from, byte) ==> s[i] != byte,
        first_at_or_after(s, from, byte) < s.len() ==> s[first_at_or_after(s, from, byte)] == byte,
    decreases s.len() - from,
{
    if from < s.len() && s[from] != byte {
        lemma_first_at_or_after(s, from + 1, byte);
    }
}

/// Any index that meets the description of `first_at_or_after` is its result.
pub proof fn lemma_first_at_or_after_unique(s: Seq<u8>, from: int, byte: u8, at: int)
    requires
        0 <= from <= at <= s.len(),
        forall|i: int| from <= i < at ==> s[i] != byte,
        at < s.len() ==> s[at] == byte,
    ensures
        first_at_or_after(s, from, byte) == at,
    decreases at - from,
{
    if from < at {
        lemma_first_at_or_after_unique(s, from + 1, byte, at);
    }
}

/// A later start never finds an earlier occurrence.
pub proof fn lemma_first_at_or_after_monotone(s: Seq<u8>, a: int, b: int, byte: u8)
    requires
        0 <= a <= b,
    ensures
        first_at_or_after(s, a, byte) <= first_at_or_after(s, b, byte),
    decreases s.len() - a,
{
    if a < s.len() && a < b {
        if s[a] != byte {
            lemma_first_at_or_after_monotone(s, a + 1, b, byte);
        } else if b <= s.len() {
            lemma_first_at_or_after(s, b, byte);
        }
    } else if a >= s.len() {
    }
}

/// Scans `data` from `from` for `byte`.
pub fn find_byte(data: &[u8], from: usize, byte: u8) -> (at: usize)
    ensures
        at == first_at_or_after(data@, from as int, byte),
{
    let mut at: usize = from;
    while at < data.len() && data[at] != byte
        invariant
            from <= at,
            first_at_or_after(data@, at as int, byte) == first_at_or_after(data@, from as int, byte),
        decreases data.len() - at,
    {
        at += 1;
    }
    at
}

} // verus!
