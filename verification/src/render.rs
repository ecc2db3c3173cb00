//! The text of the results: one line per key, in ascending key order.

use vstd::prelude::*;
use crate::planner::LINE_END;
use crate::stats::{Statistics, Summary};
use crate::decimal::{all_digits, digits_value, is_digit};

verus! {

/// The decimal digits of `n`, without leading zeros.
pub open spec fn decimal_text(n: nat) -> Seq<u8>
    decreases n,
{
    if n < 10 {
        seq![(48 + n) as u8]
    } else {
        decimal_text(n / 10).push((48 + n % 10) as u8)
    }
}

/// The digits written for `n` denote `n`, and begin with a zero only where
/// `n` is zero.
pub proof fn lemma_decimal_text(n: nat)
    ensures
        decimal_text(n).len() >= 1,
        all_digits(decimal_text(n)),
        digits_value(decimal_text(n)) == n,
        n > 0 ==> decimal_text(n)[0] != 48,
    decreases n,
{
    let text = decimal_text(n);
    if n < 10 {
        assert(text.drop_last() =~= Seq::<u8>::empty());
        assert(digits_value(text.drop_last()) == 0);
    } else {
        lemma_decimal_text(n / 10);
        assert(text.drop_last() =~= decimal_text(n / 10));
        assert(text[0] == decimal_text(n / 10)[0]);
        assert forall|i: int| 0 <= i < text.len() implies is_digit(#[trigger] text[i]) by {
            if i < text.len() - 1 {
                assert(text[i] == decimal_text(n / 10)[i]);
            }
        }
    }
}

/// A whole number with one fractional digit: a minus sign if it is negative,
/// its digits, a point and a zero.
pub open spec fn number_text(v: int) -> Seq<u8> {
    if v < 0 {
        seq![45u8] + decimal_text((-v) as nat) + seq![46u8, 48u8]
    } else {
        decimal_text(v as nat) + seq![46u8, 48u8]
    }
}

/// The line of one key: `<key> = <min>/ <median>/ <max>`.
pub open spec fn line_text(key: Seq<u8>, s: Summary) -> Seq<u8> {
    key + seq![32u8, 61u8, 32u8] + number_text(s.min as int) + seq![47u8, 32u8] + number_text(
        s.median as int,
    ) + seq![47u8, 32u8] + number_text(s.max as int)
}

/// The lines of `keys` in their order, each closed by a line end.
pub open spec fn rendered(keys: Seq<Seq<u8>>, m: Map<Seq<u8>, Summary>) -> Seq<u8>
    decreases keys.len(),
{
    if keys.len() == 0 {
        Seq::empty()
    } else {
        rendered(keys.drop_last(), m) + line_text(keys.last(), m[keys.last()]) + seq![LINE_END]
    }
}

fn push_all(out: &mut Vec<u8>, bytes: &[u8])
    ensures
        final(out)@ == old(out)@ + bytes@,
{
    let mut i: usize = 0;
    assert(bytes@.take(0) =~= Seq::<u8>::empty());
    assert(out@ =~= old(out)@ + bytes@.take(0));
    while i < bytes.len()
        invariant
            i <= bytes.len(),
            out@ == old(out)@ + bytes@.take(i as int),
        decreases bytes.len() - i,
    {
        out.push(bytes[i]);
        i += 1;
        proof {
            assert(bytes@.take(i as int) =~= bytes@.take(i - 1).push(bytes@[i - 1]));
            assert(out@ =~= old(out)@ + bytes@.take(i as int));
        }
    }
    assert(bytes@.take(i as int) =~= bytes@);
}

fn push_decimal(out: &mut Vec<u8>, n: u64)
    ensures
        final(out)@ == old(out)@ + decimal_text(n as nat),
    decreases n,
{
    if n >= 10 {
        push_decimal(out, n / 10);
    }
    let digit: u8 = 48 + (n % 10) as u8;
    out.push(digit);
    proof {
        assert(out@ =~= old(out)@ + decimal_text(n as nat));
    }
}

fn push_number(out: &mut Vec<u8>, v: i64)
    ensures
        final(out)@ == old(out)@ + number_text(v as int),
{
    let size: u64 = if v < 0 {
        out.push(45);
        (-(v as i128)) as u64
    } else {
        v as u64
    };
    push_decimal(out, size);
    out.push(46);
    out.push(48);
    proof {
        assert(out@ =~= old(out)@ + number_text(v as int));
    }
}

/// Writes the line of one key, without a line end.
pub fn render_line(key: &[u8], summary: Summary) -> (line: Vec<u8>)
    ensures
        line@ == line_text(key@, summary),
{
    let mut line: Vec<u8> = Vec::new();
    push_all(&mut line, key);
    line.push(32);
    line.push(61);
    line.push(32);
    push_number(&mut line, summary.min);
    line.push(47);
    line.push(32);
    push_number(&mut line, summary.median);
    line.push(47);
    line.push(32);
    push_number(&mut line, summary.max);
    proof {
        assert(line@ =~= line_text(key@, summary));
    }
    line
}

/// Writes the results: the line of every key, in ascending key order, each
/// closed by a line end.
pub fn render_results(stats: &Statistics) -> (text: Vec<u8>)
    requires
        stats.wf(),
    ensures
        text@ == rendered(stats.keys(), stats@),
{
    let n = stats.len();
    let ghost keys = stats.keys();
    let mut text: Vec<u8> = Vec::new();
    let mut i: usize = 0;
    proof {
        assert(keys.take(0) =~= Seq::<Seq<u8>>::empty());
    }
    while i < n
        invariant
            i <= n,
            n == keys.len(),
            stats.wf(),
            keys == stats.keys(),
            text@ == rendered(keys.take(i as int), stats@),
        decreases n - i,
    {
        let line = render_line(stats.key_at(i).as_slice(), stats.summary_at(i));
        let ghost before = text@;
        push_all(&mut text, line.as_slice());
        text.push(LINE_END);
        proof {
            let grown = keys.take(i as int + 1);
            assert(grown.drop_last() =~= keys.take(i as int));
            assert(grown.last() == keys[i as int]);
            assert(text@ =~= before + line@ + seq![LINE_END]);
        }
        i += 1;
    }
    proof {
        assert(keys.take(n as int) =~= keys);
    }
    text
}

} // verus!
