//! One line of input: a key, a delimiter and the text of a value.

use vstd::prelude::*;
use vstd::slice::slice_subrange;
use crate::planner::LINE_END;
use crate::scan::{find_byte, first_at_or_after, lemma_first_at_or_after};
use crate::value::{is_accepted, lemma_accepted_value, parse_value, value_outcome, ValueOutcome, LIMIT};

verus! {

/// The byte between the key and the value.
pub const DELIMITER: u8 = 59;

/// The greatest length of a key, in bytes.
pub const MAX_KEY_LEN: usize = 100;

/// What a line turned out to be.
#[derive(Clone, Copy, Debug, PartialEq, Eq)]
pub enum LineKind {
    /// The line is empty.
    Blank,
    /// The line holds no delimiter.
    Undelimited,
    /// The key is empty, too long, or holds a delimiter or a line end.
    BadKey,
    /// The text of the value is not a number; such a line is passed over in
    /// silence.
    Unparsable,
    /// The value is a number that is not accepted.
    BadValue,
    /// A record with this value.
    Record(i64),
}

/// A key is 1 to 100 bytes long and holds neither delimiter nor line end.
pub open spec fn is_valid_key(key: Seq<u8>) -> bool {
    &&& 1 <= key.len() <= MAX_KEY_LEN
    &&& forall|i: int| 0 <= i < key.len() ==> #[trigger] key[i] != DELIMITER && key[i] != LINE_END
}

/// The index of the first delimiter of `line`, or its length if it has none.
pub open spec fn delimiter_at(line: Seq<u8>) -> int {
    first_at_or_after(line, 0, DELIMITER)
}

/// What stands before the first delimiter.
pub open spec fn key_of(line: Seq<u8>) -> Seq<u8> {
    line.take(delimiter_at(line))
}

/// What stands after the first delimiter.
pub open spec fn raw_value_of(line: Seq<u8>) -> Seq<u8> {
    line.skip(delimiter_at(line) + 1)
}

/// The kind of `line`. The key is judged before the value.
pub open spec fn line_kind(line: Seq<u8>) -> LineKind {
    if line.len() == 0 {
        LineKind::Blank
    } else if delimiter_at(line) >= line.len() {
        LineKind::Undelimited
    } else if !is_valid_key(key_of(line)) {
        LineKind::BadKey
    } else {
        match value_outcome(raw_value_of(line)) {
            ValueOutcome::Unparsable => LineKind::Unparsable,
            ValueOutcome::Invalid => LineKind::BadValue,
            ValueOutcome::Valid(v) => LineKind::Record(v),
        }
    }
}

/// The value of a line that is a record.
pub open spec fn value_of(line: Seq<u8>) -> i64 {
    match line_kind(line) {
        LineKind::Record(v) => v,
        _ => 0,
    }
}

/// A line is a record if and only if it holds a delimiter, its key is 1 to
/// 100 bytes long, and what follows the delimiter is a number written with a
/// decimal point and within the limit. The value of a record lies between
/// the limits.
pub proof fn lemma_record_line(line: Seq<u8>)
    ensures
        line_kind(line) is Record <==> {
            &&& delimiter_at(line) < line.len()
            &&& is_valid_key(key_of(line))
            &&& is_accepted(raw_value_of(line))
        },
        line_kind(line) is Record ==> {
            &&& value_outcome(raw_value_of(line)) == ValueOutcome::Valid(value_of(line))
            &&& -LIMIT <= value_of(line) <= LIMIT
        },
{
    lemma_accepted_value(raw_value_of(line));
    crate::scan::lemma_first_at_or_after(line, 0, DELIMITER);
}

/// Tells whether `key` is acceptable as a key.
pub fn check_key(key: &[u8]) -> (ok: bool)
    ensures
        ok == is_valid_key(key@),
{
    if key.len() < 1 || key.len() > MAX_KEY_LEN {
        return false;
    }
    let mut i: usize = 0;
    while i < key.len()
        invariant
            i <= key.len(),
            1 <= key.len() <= MAX_KEY_LEN,
            forall|j: int| 0 <= j < i ==> #[trigger] key@[j] != DELIMITER && key@[j] != LINE_END,
        decreases key.len() - i,
    {
        if key[i] == DELIMITER || key[i] == LINE_END {
            return false;
        }
        i += 1;
    }
    true
}

/// Finds the first delimiter of `line` and hands back what stands on either
/// side of it; `None` where the line has none.
pub fn split_line(line: &[u8]) -> (parts: Option<(&[u8], &[u8])>)
    ensures
        match parts {
            Some((key, raw)) => delimiter_at(line@) < line.len() && key@ == key_of(line@) && raw@
                == raw_value_of(line@),
            None => delimiter_at(line@) >= line.len(),
        },
{
    proof {
        lemma_first_at_or_after(line@, 0, DELIMITER);
    }
    let at = find_byte(line, 0, DELIMITER);
    if at >= line.len() {
        None
    } else {
        Some((slice_subrange(line, 0, at), slice_subrange(line, at + 1, line.len())))
    }
}

/// Judges one line.
pub fn classify_line(line: &[u8]) -> (kind: LineKind)
    ensures
        kind == line_kind(line@),
{
    if line.len() == 0 {
        return LineKind::Blank;
    }
    match split_line(line) {
        None => LineKind::Undelimited,
        Some((key, raw)) => {
            if !check_key(key) {
                LineKind::BadKey
            } else {
                match parse_value(raw) {
                    ValueOutcome::Unparsable => LineKind::Unparsable,
                    ValueOutcome::Invalid => LineKind::BadValue,
                    ValueOutcome::Valid(v) => LineKind::Record(v),
                }
            }
        },
    }
}

} // verus!
