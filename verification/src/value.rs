//! Values as fixed-point numbers, and the text that denotes them.
//!
//! A value `v` stands for the number `v / SCALE`. The text of a value is a
//! number in decimal notation: an optional sign, digits, a decimal point and
//! digits, with at least one digit in all, and optionally an exponent, the
//! letter `e` and a whole number. The words `inf`, `infinity` and `nan` are
//! numbers too, but none that a value can hold. Letters count alike in upper
//! and lower case. Whitespace around the text is ignored: the characters that
//! Unicode classes as white space, in UTF-8.
//!
//! A number is accepted if it is written with a decimal point and lies
//! between -99.9 and 99.9, both included. Its value is the multiple of
//! `1 / SCALE` nearest to the number as written; of two that are equally
//! near, the one farther from zero.

use vstd::prelude::*;
use vstd::slice::slice_subrange;
use crate::decimal::{all_digits, digits_end, digits_value, is_digit, lemma_digits_end, scan_digits};
use crate::fixed::{capped, fixed_point, lemma_fixed_point_bounds, run_of, to_fixed, EXPONENT_CAP};

verus! {

/// The fixed-point representation of the number one.
pub const SCALE: i64 = 1_000_000_000_000_000;

/// The largest magnitude of a value: the representation of 99.9.
pub const LIMIT: i64 = 99_900_000_000_000_000;

/// The number of digits after the decimal point that a value holds.
pub const FRACTION_DIGITS: usize = 15;

/// What the text of a value turned out to be.
#[derive(Clone, Copy, Debug, PartialEq, Eq)]
pub enum ValueOutcome {
    /// The text is not a number.
    Unparsable,
    /// The text is a number, but one written without a decimal point, or one
    /// beyond the limit.
    Invalid,
    /// The text denotes this value.
    Valid(i64),
}

/// A whitespace character of one byte: space, tab, line feed, vertical tab,
/// form feed or carriage return.
pub open spec fn is_space(b: u8) -> bool {
    b == 32 || (9 <= b && b <= 13)
}

/// The UTF-8 encoding of a whitespace character of two bytes: U+0085 or
/// U+00A0.
pub open spec fn is_space_pair(a: u8, b: u8) -> bool {
    a == 0xC2 && (b == 0x85 || b == 0xA0)
}

/// The UTF-8 encoding of a whitespace character of three bytes: U+1680,
/// U+2000 to U+200A, U+2028, U+2029, U+202F, U+205F or U+3000.
pub open spec fn is_space_triple(a: u8, b: u8, c: u8) -> bool {
    ||| (a == 0xE1 && b == 0x9A && c == 0x80)
    ||| (a == 0xE2 && b == 0x80 && ((0x80 <= c && c <= 0x8A) || c == 0xA8 || c == 0xA9 || c == 0xAF))
    ||| (a == 0xE2 && b == 0x81 && c == 0x9F)
    ||| (a == 0xE3 && b == 0x80 && c == 0x80)
}

/// The length in bytes of the whitespace character that `s` begins with; 0
/// where it begins with none.
pub open spec fn space_at_front(s: Seq<u8>) -> int {
    if s.len() >= 1 && is_space(s[0]) {
        1
    } else if s.len() >= 2 && is_space_pair(s[0], s[1]) {
        2
    } else if s.len() >= 3 && is_space_triple(s[0], s[1], s[2]) {
        3
    } else {
        0
    }
}

/// The length in bytes of the whitespace character that `s` ends with; 0
/// where it ends with none.
pub open spec fn space_at_back(s: Seq<u8>) -> int {
    let n = s.len() as int;
    if n >= 1 && is_space(s[n - 1]) {
        1
    } else if n >= 2 && is_space_pair(s[n - 2], s[n - 1]) {
        2
    } else if n >= 3 && is_space_triple(s[n - 3], s[n - 2], s[n - 1]) {
        3
    } else {
        0
    }
}

/// `s` without the whitespace at its front.
pub open spec fn trim_front(s: Seq<u8>) -> Seq<u8>
    decreases s.len(),
{
    if space_at_front(s) > 0 {
        trim_front(s.skip(space_at_front(s)))
    } else {
        s
    }
}

/// `s` without the whitespace at its back.
pub open spec fn trim_back(s: Seq<u8>) -> Seq<u8>
    decreases s.len(),
{
    if space_at_back(s) > 0 {
        trim_back(s.take(s.len() - space_at_back(s)))
    } else {
        s
    }
}

/// `s` without the whitespace at either end.
pub open spec fn trimmed(s: Seq<u8>) -> Seq<u8> {
    trim_back(trim_front(s))
}

/// The text begins with `+` or `-`.
pub open spec fn has_sign(t: Seq<u8>) -> bool {
    t.len() > 0 && (t[0] == 43 || t[0] == 45)
}

/// The text begins with `-`.
pub open spec fn is_negative(t: Seq<u8>) -> bool {
    t.len() > 0 && t[0] == 45
}

/// The text after its sign, if it has one.
pub open spec fn unsigned_part(t: Seq<u8>) -> Seq<u8> {
    if has_sign(t) {
        t.drop_first()
    } else {
        t
    }
}

/// A decimal point follows the leading digits of `body`.
pub open spec fn has_point(body: Seq<u8>) -> bool {
    digits_end(body, 0) < body.len() && body[digits_end(body, 0)] == 46
}

/// The digits before the decimal point.
pub open spec fn integer_digits(body: Seq<u8>) -> Seq<u8> {
    body.take(digits_end(body, 0))
}

/// What follows the decimal point; nothing where there is no point.
pub open spec fn fraction_digits(body: Seq<u8>) -> Seq<u8> {
    if has_point(body) {
        body.skip(digits_end(body, 0) + 1)
    } else {
        Seq::empty()
    }
}

/// `body` is digits, optionally a point and more digits, and holds at least
/// one digit.
pub open spec fn is_decimal(body: Seq<u8>) -> bool {
    &&& all_digits(fraction_digits(body))
    &&& integer_digits(body).len() + fraction_digits(body).len() >= 1
    &&& (has_point(body) || digits_end(body, 0) == body.len())
}

/// The letter `b` in lower case; any other byte as it is.
pub open spec fn lower(b: u8) -> u8 {
    if 65 <= b && b <= 90 {
        (b + 32) as u8
    } else {
        b
    }
}

/// One of the words `inf`, `nan` and `infinity`, in either case.
pub open spec fn is_special(body: Seq<u8>) -> bool {
    ||| (body.len() == 3 && lower(body[0]) == 105 && lower(body[1]) == 110 && lower(body[2]) == 102)
    ||| (body.len() == 3 && lower(body[0]) == 110 && lower(body[1]) == 97 && lower(body[2]) == 110)
    ||| (body.len() == 8 && lower(body[0]) == 105 && lower(body[1]) == 110 && lower(body[2]) == 102
        && lower(body[3]) == 105 && lower(body[4]) == 110 && lower(body[5]) == 105 && lower(body[6])
        == 116 && lower(body[7]) == 121)
}

/// The letter that opens an exponent: `e` or `E`.
pub open spec fn is_exponent_mark(b: u8) -> bool {
    b == 101 || b == 69
}

/// The index of the first exponent mark at or after `from`, or the length of
/// `s` where there is none.
pub open spec fn exponent_mark(s: Seq<u8>, from: int) -> int
    decreases s.len() - from,
{
    if from >= s.len() {
        from
    } else if is_exponent_mark(s[from]) {
        from
    } else {
        exponent_mark(s, from + 1)
    }
}

/// `body` holds an exponent mark.
pub open spec fn has_exponent(body: Seq<u8>) -> bool {
    exponent_mark(body, 0) < body.len()
}

/// What stands before the exponent mark; all of `body` where it has none.
pub open spec fn mantissa_of(body: Seq<u8>) -> Seq<u8> {
    body.take(exponent_mark(body, 0))
}

/// What stands after the exponent mark.
pub open spec fn exponent_text(body: Seq<u8>) -> Seq<u8> {
    body.skip(exponent_mark(body, 0) + 1)
}

/// The text of an exponent: an optional sign and at least one digit.
pub open spec fn is_exponent(t: Seq<u8>) -> bool {
    unsigned_part(t).len() >= 1 && all_digits(unsigned_part(t))
}

/// The whole number that the text of an exponent denotes.
pub open spec fn exponent_of(t: Seq<u8>) -> int {
    if is_negative(t) {
        -(digits_value(unsigned_part(t)) as int)
    } else {
        digits_value(unsigned_part(t)) as int
    }
}

/// `body` is a number in decimal notation, with or without an exponent.
pub open spec fn is_number(body: Seq<u8>) -> bool {
    is_decimal(mantissa_of(body)) && (has_exponent(body) ==> is_exponent(exponent_text(body)))
}

/// The exponent that `body` is written with; 0 where it is written with none.
pub open spec fn written_exponent(body: Seq<u8>) -> int {
    if has_exponent(body) {
        exponent_of(exponent_text(body))
    } else {
        0
    }
}

/// All the digits of the number, those before the point and those after it.
pub open spec fn written_digits(body: Seq<u8>) -> Seq<u8> {
    integer_digits(mantissa_of(body)) + fraction_digits(mantissa_of(body))
}

/// The power of ten by which the digits, read as one whole number, are to be
/// multiplied to give the number in units of `1 / SCALE`.
pub open spec fn shift_of(body: Seq<u8>) -> int {
    written_exponent(body) - fraction_digits(mantissa_of(body)).len() + FRACTION_DIGITS
}

/// The outcome for the text `raw` of a value.
pub open spec fn value_outcome(raw: Seq<u8>) -> ValueOutcome {
    let text = trimmed(raw);
    let body = unsigned_part(text);
    if is_special(body) {
        ValueOutcome::Invalid
    } else if !is_number(body) {
        ValueOutcome::Unparsable
    } else if !has_point(mantissa_of(body)) {
        ValueOutcome::Invalid
    } else {
        match fixed_point(written_digits(body), shift_of(body)) {
            None => ValueOutcome::Invalid,
            Some(size) => if is_negative(text) {
                ValueOutcome::Valid((-size) as i64)
            } else {
                ValueOutcome::Valid(size as i64)
            },
        }
    }
}

/// The text is a number written with a decimal point and within the limit.
pub open spec fn is_accepted(raw: Seq<u8>) -> bool {
    let body = unsigned_part(trimmed(raw));
    &&& is_number(body)
    &&& has_point(mantissa_of(body))
    &&& fixed_point(written_digits(body), shift_of(body)) is Some
}

/// A text that denotes a value is a number written with a decimal point, and
/// the value lies between the limits, both included; and every number
/// written with a point and within the limit denotes a value.
pub proof fn lemma_accepted_value(raw: Seq<u8>)
    ensures
        value_outcome(raw) is Valid <==> is_accepted(raw),
        value_outcome(raw) matches ValueOutcome::Valid(v) ==> -LIMIT <= v <= LIMIT,
{
    let body = unsigned_part(trimmed(raw));
    lemma_fixed_point_bounds(written_digits(body), shift_of(body));
    if is_special(body) {
        let m = mantissa_of(body);
        lemma_exponent_mark(body, 0);
        if digits_end(m, 0) > 0 {
            lemma_digits_end(m, 0);
            assert(is_digit(m[0]));
            assert(m[0] == body[0]);
        }
        if has_point(m) {
            assert(m[0] == 46);
            assert(m[0] == body[0]);
        }
    }
}

/// What `exponent_mark` finds: the result lies between `from` and the end, no
/// byte before it is a mark, and it stops on a mark unless it ran out.
pub proof fn lemma_exponent_mark(s: Seq<u8>, from: int)
    requires
        0 <= from <= s.len(),
    ensures
        from <= exponent_mark(s, from) <= s.len(),
        forall|i: int| from <= i < exponent_mark(s, from) ==> !is_exponent_mark(#[trigger] s[i]),
        exponent_mark(s, from) < s.len() ==> is_exponent_mark(s[exponent_mark(s, from)]),
    decreases s.len() - from,
{
    if from < s.len() && !is_exponent_mark(s[from]) {
        lemma_exponent_mark(s, from + 1);
    }
}

fn is_space_byte(b: u8) -> (r: bool)
    ensures
        r == is_space(b),
{
    b == 32 || (9 <= b && b <= 13)
}

fn is_space_pair_bytes(a: u8, b: u8) -> (r: bool)
    ensures
        r == is_space_pair(a, b),
{
    a == 0xC2 && (b == 0x85 || b == 0xA0)
}

fn is_space_triple_bytes(a: u8, b: u8, c: u8) -> (r: bool)
    ensures
        r == is_space_triple(a, b, c),
{
    (a == 0xE1 && b == 0x9A && c == 0x80) || (a == 0xE2 && b == 0x80 && ((0x80 <= c && c <= 0x8A)
        || c == 0xA8 || c == 0xA9 || c == 0xAF)) || (a == 0xE2 && b == 0x81 && c == 0x9F) || (a
        == 0xE3 && b == 0x80 && c == 0x80)
}

fn leading_space(s: &[u8]) -> (width: usize)
    ensures
        width == space_at_front(s@),
        width <= s.len(),
{
    if s.len() >= 1 && is_space_byte(s[0]) {
        1
    } else if s.len() >= 2 && is_space_pair_bytes(s[0], s[1]) {
        2
    } else if s.len() >= 3 && is_space_triple_bytes(s[0], s[1], s[2]) {
        3
    } else {
        0
    }
}

fn trailing_space(s: &[u8]) -> (width: usize)
    ensures
        width == space_at_back(s@),
        width <= s.len(),
{
    let n = s.len();
    if n >= 1 && is_space_byte(s[n - 1]) {
        1
    } else if n >= 2 && is_space_pair_bytes(s[n - 2], s[n - 1]) {
        2
    } else if n >= 3 && is_space_triple_bytes(s[n - 3], s[n - 2], s[n - 1]) {
        3
    } else {
        0
    }
}

/// Strips the whitespace at both ends of `raw`.
pub fn trim(raw: &[u8]) -> (text: &[u8])
    ensures
        text@ == trimmed(raw@),
{
    let mut text = raw;
    let mut width = leading_space(text);
    while width > 0
        invariant
            width == space_at_front(text@),
            width <= text.len(),
            trim_front(text@) == trim_front(raw@),
        decreases text.len(),
    {
        proof {
            assert(text@.skip(width as int) =~= text@.subrange(width as int, text.len() as int));
        }
        text = slice_subrange(text, width, text.len());
        width = leading_space(text);
    }
    let ghost front = text@;
    let mut width = trailing_space(text);
    while width > 0
        invariant
            width == space_at_back(text@),
            width <= text.len(),
            trim_back(text@) == trim_back(front),
        decreases text.len(),
    {
        proof {
            assert(text@.take(text.len() - width) =~= text@.subrange(0, text.len() - width));
        }
        text = slice_subrange(text, 0, text.len() - width);
        width = trailing_space(text);
    }
    text
}

fn lower_byte(b: u8) -> (l: u8)
    ensures
        l == lower(b),
{
    if 65 <= b && b <= 90 {
        b + 32
    } else {
        b
    }
}

fn is_special_word(body: &[u8]) -> (special: bool)
    ensures
        special == is_special(body@),
{
    if body.len() == 3 {
        let a = lower_byte(body[0]);
        let b = lower_byte(body[1]);
        let c = lower_byte(body[2]);
        (a == 105 && b == 110 && c == 102) || (a == 110 && b == 97 && c == 110)
    } else if body.len() == 8 {
        lower_byte(body[0]) == 105 && lower_byte(body[1]) == 110 && lower_byte(body[2]) == 102
            && lower_byte(body[3]) == 105 && lower_byte(body[4]) == 110 && lower_byte(body[5]) == 105
            && lower_byte(body[6]) == 116 && lower_byte(body[7]) == 121
    } else {
        false
    }
}

fn find_exponent_mark(body: &[u8]) -> (at: usize)
    ensures
        at == exponent_mark(body@, 0),
        at <= body.len(),
{
    let mut at: usize = 0;
    while at < body.len() && body[at] != 101 && body[at] != 69
        invariant
            at <= body.len(),
            exponent_mark(body@, at as int) == exponent_mark(body@, 0),
        decreases body.len() - at,
    {
        at += 1;
    }
    at
}

/// Tells whether `m` is digits, optionally a point and more digits, with at
/// least one digit in all; and if so, where the point stands, or would stand:
/// at the end of the digits before it.
fn decimal_shape(m: &[u8]) -> (shape: Option<usize>)
    ensures
        match shape {
            None => !is_decimal(m@),
            Some(point) => {
                &&& is_decimal(m@)
                &&& point == digits_end(m@, 0)
                &&& point <= m.len()
                &&& has_point(m@) == (point < m.len())
                &&& point < m.len() ==> {
                    &&& all_digits(run_of(m@, point as int))
                    &&& run_of(m@, point as int) == integer_digits(m@) + fraction_digits(m@)
                    &&& fraction_digits(m@).len() == m.len() - 1 - point
                }
            },
        },
{
    proof {
        lemma_digits_end(m@, 0);
    }
    let point = scan_digits(m, 0);
    if point == m.len() {
        if point == 0 {
            return None;
        }
        return Some(point);
    }
    if m[point] != 46 {
        return None;
    }
    proof {
        lemma_digits_end(m@, point as int + 1);
    }
    let stop = scan_digits(m, point + 1);
    if stop != m.len() {
        proof {
            assert(fraction_digits(m@)[stop - point - 1] == m@[stop as int]);
        }
        return None;
    }
    if point == 0 && stop == 1 {
        return None;
    }
    proof {
        let run = run_of(m@, point as int);
        assert forall|i: int| 0 <= i < run.len() implies is_digit(#[trigger] run[i]) by {
            if i < point {
                assert(run[i] == m@[i]);
            } else {
                assert(run[i] == m@[i + 1]);
            }
        }
        assert forall|i: int| 0 <= i < fraction_digits(m@).len() implies is_digit(
            #[trigger] fraction_digits(m@)[i],
        ) by {
            assert(fraction_digits(m@)[i] == m@[point + 1 + i]);
        }
    }
    Some(point)
}

/// Reads the text of an exponent; `None` where it is none. An exponent beyond
/// the caps is given as the cap.
fn read_exponent(t: &[u8]) -> (e: Option<i128>)
    ensures
        match e {
            None => !is_exponent(t@),
            Some(v) => is_exponent(t@) && v == capped(exponent_of(t@)),
        },
{
    let signed = t.len() > 0 && (t[0] == 43 || t[0] == 45);
    let negative = t.len() > 0 && t[0] == 45;
    let ds = if signed {
        slice_subrange(t, 1, t.len())
    } else {
        t
    };
    proof {
        assert(ds@ =~= unsigned_part(t@));
        lemma_digits_end(ds@, 0);
    }
    if ds.len() == 0 {
        return None;
    }
    let end = scan_digits(ds, 0);
    if end != ds.len() {
        return None;
    }
    let mut acc: i128 = 0;
    let mut i: usize = 0;
    while i < ds.len()
        invariant
            i <= ds.len(),
            all_digits(ds@),
            0 <= acc <= EXPONENT_CAP,
            acc < EXPONENT_CAP ==> acc == digits_value(ds@.take(i as int)),
            acc == EXPONENT_CAP ==> digits_value(ds@.take(i as int)) >= EXPONENT_CAP,
        decreases ds.len() - i,
    {
        proof {
            assert(ds@.take(i as int + 1).drop_last() =~= ds@.take(i as int));
            assert(is_digit(ds@[i as int]));
        }
        let d: i128 = (ds[i] - 48) as i128;
        acc = acc * 10 + d;
        if acc > EXPONENT_CAP {
            acc = EXPONENT_CAP;
        }
        i += 1;
    }
    proof {
        assert(ds@.take(i as int) =~= ds@);
    }
    if negative {
        Some(-acc)
    } else {
        Some(acc)
    }
}

/// Reads the text of a value.
pub fn parse_value(raw: &[u8]) -> (outcome: ValueOutcome)
    ensures
        outcome == value_outcome(raw@),
{
    let text = trim(raw);
    let signed = text.len() > 0 && (text[0] == 43 || text[0] == 45);
    let negative = text.len() > 0 && text[0] == 45;
    let body = if signed {
        slice_subrange(text, 1, text.len())
    } else {
        text
    };
    proof {
        assert(body@ =~= unsigned_part(text@));
        lemma_accepted_value(raw@);
    }
    if is_special_word(body) {
        return ValueOutcome::Invalid;
    }
    let mark = find_exponent_mark(body);
    let mantissa = slice_subrange(body, 0, mark);
    proof {
        assert(mantissa@ =~= mantissa_of(body@));
    }
    let point = match decimal_shape(mantissa) {
        None => {
            return ValueOutcome::Unparsable;
        },
        Some(point) => point,
    };
    let mut exponent: i128 = 0;
    if mark < body.len() {
        let tail = slice_subrange(body, mark + 1, body.len());
        proof {
            assert(tail@ =~= exponent_text(body@));
        }
        match read_exponent(tail) {
            None => {
                return ValueOutcome::Unparsable;
            },
            Some(e) => {
                exponent = e;
            },
        }
    }
    if point == mantissa.len() {
        return ValueOutcome::Invalid;
    }
    match to_fixed(mantissa, point, exponent, Ghost(written_exponent(body@))) {
        None => ValueOutcome::Invalid,
        Some(size) => {
            if negative {
                ValueOutcome::Valid(-size)
            } else {
                ValueOutcome::Valid(size)
            }
        },
    }
}

} // verus!
