//! Parsing one chunk into a partial aggregate and the diagnostics of the
//! lines that were turned away.

use vstd::prelude::*;
use vstd::slice::{slice_subrange, slice_to_vec};
use vstd::utf8::valid_utf8;
use crate::aggregate::{values_of, with_value, Aggregate};
use crate::planner::LINE_END;
use crate::record::{check_key, key_of, line_kind, raw_value_of, split_line, value_of, LineKind};
use crate::value::{parse_value, ValueOutcome};
use crate::scan::{find_byte, first_at_or_after, lemma_first_at_or_after, lemma_first_at_or_after_unique};

verus! {

/// Why a line was turned away.
#[derive(Clone, Copy, Debug, PartialEq, Eq)]
pub enum DiagnosticKind {
    MissingDelimiter,
    InvalidKey,
    InvalidValue,
}

/// A line that was turned away, with the text at fault: the whole line where
/// the delimiter is missing, else the key or the text of the value.
#[derive(Debug, PartialEq, Eq)]
pub struct Diagnostic {
    pub kind: DiagnosticKind,
    pub text: Vec<u8>,
}

/// What parsing a chunk yields.
pub struct ChunkReport {
    pub aggregate: Aggregate,
    pub diagnostics: Vec<Diagnostic>,
}

/// The lines of `data`: what stands between line ends. A line end at the very
/// end of the data closes the last line and opens no further one.
pub open spec fn chunk_lines(data: Seq<u8>) -> Seq<Seq<u8>>
    decreases data.len(),
{
    if data.len() == 0 {
        Seq::empty()
    } else {
        let end = first_at_or_after(data, 0, LINE_END);
        if 0 <= end < data.len() {
            seq![data.take(end)] + chunk_lines(data.skip(end + 1))
        } else {
            seq![data]
        }
    }
}

/// The lines written one after the other with a line end between each two.
pub open spec fn joined(lines: Seq<Seq<u8>>) -> Seq<u8>
    decreases lines.len(),
{
    if lines.len() == 0 {
        Seq::empty()
    } else if lines.len() == 1 {
        lines[0]
    } else {
        lines[0] + seq![LINE_END] + joined(lines.drop_first())
    }
}

/// The lines of `data` hold no line end, and joined by line ends they give
/// `data` back, but for the line end that `data` may close with.
pub proof fn lemma_chunk_lines(data: Seq<u8>)
    ensures
        forall|i: int, j: int|
            0 <= i < chunk_lines(data).len() && 0 <= j < chunk_lines(data)[i].len()
                ==> #[trigger] chunk_lines(data)[i][j] != LINE_END,
        data.len() > 0 && data.last() == LINE_END ==> joined(chunk_lines(data)) + seq![LINE_END]
            == data,
        data.len() > 0 && data.last() != LINE_END ==> joined(chunk_lines(data)) == data,
        data.len() > 0 ==> chunk_lines(data).len() > 0,
    decreases data.len(),
{
    if data.len() > 0 {
        lemma_first_at_or_after(data, 0, LINE_END);
        let end = first_at_or_after(data, 0, LINE_END);
        let lines = chunk_lines(data);
        if end < data.len() {
            let rest = data.skip(end + 1);
            let head = data.take(end);
            lemma_chunk_lines(rest);
            let more = chunk_lines(rest);
            assert(lines == seq![head] + more);
            assert forall|i: int, j: int|
                0 <= i < lines.len() && 0 <= j < lines[i].len() implies #[trigger] lines[i][j]
                != LINE_END by {
                if i == 0 {
                    assert(lines[0][j] == data[j]);
                } else {
                    assert(lines[i] == more[i - 1]);
                }
            }
            if more.len() == 0 {
                assert(rest.len() == 0);
                assert(lines =~= seq![head]);
                assert(head + seq![LINE_END] =~= data);
            } else {
                assert(lines.drop_first() =~= more);
                assert(rest.last() == data.last());
                assert(data =~= head + seq![LINE_END] + rest);
                if rest.last() == LINE_END {
                    assert(head + seq![LINE_END] + joined(more) + seq![LINE_END] =~= head + seq![
                        LINE_END,
                    ] + (joined(more) + seq![LINE_END]));
                }
            }
        } else {
            assert(lines == seq![data]);
            assert forall|i: int, j: int|
                0 <= i < lines.len() && 0 <= j < lines[i].len() implies #[trigger] lines[i][j]
                != LINE_END by {}
        }
    }
}

/// A line without a line end, followed by a line end and more data, is the
/// first line of the whole, and the lines of the rest follow it.
pub proof fn lemma_chunk_lines_step(line: Seq<u8>, rest: Seq<u8>)
    requires
        forall|i: int| 0 <= i < line.len() ==> line[i] != LINE_END,
    ensures
        chunk_lines(line + seq![LINE_END] + rest) == seq![line] + chunk_lines(rest),
{
    let data = line + seq![LINE_END] + rest;
    assert forall|i: int| 0 <= i < line.len() implies data[i] != LINE_END by {
        assert(data[i] == line[i]);
    }
    assert(data[line.len() as int] == LINE_END);
    lemma_first_at_or_after_unique(data, 0, LINE_END, line.len() as int);
    assert(data.take(line.len() as int) =~= line);
    assert(data.skip(line.len() as int + 1) =~= rest);
}

/// The records among `lines`, in line order, each as key and value.
pub open spec fn records_of(lines: Seq<Seq<u8>>) -> Seq<(Seq<u8>, i64)>
    decreases lines.len(),
{
    if lines.len() == 0 {
        Seq::empty()
    } else {
        match line_kind(lines.last()) {
            LineKind::Record(v) => records_of(lines.drop_last()).push((key_of(lines.last()), v)),
            _ => records_of(lines.drop_last()),
        }
    }
}

/// The diagnostic that a line gives rise to, if any.
pub open spec fn line_diagnostic(line: Seq<u8>) -> Option<(DiagnosticKind, Seq<u8>)> {
    match line_kind(line) {
        LineKind::Undelimited => Some((DiagnosticKind::MissingDelimiter, line)),
        LineKind::BadKey => Some((DiagnosticKind::InvalidKey, key_of(line))),
        LineKind::BadValue => Some((DiagnosticKind::InvalidValue, raw_value_of(line))),
        _ => None,
    }
}

/// The diagnostics of `lines`, in line order.
pub open spec fn diagnostics_of(lines: Seq<Seq<u8>>) -> Seq<(DiagnosticKind, Seq<u8>)>
    decreases lines.len(),
{
    if lines.len() == 0 {
        Seq::empty()
    } else {
        match line_diagnostic(lines.last()) {
            Some(d) => diagnostics_of(lines.drop_last()).push(d),
            None => diagnostics_of(lines.drop_last()),
        }
    }
}

/// The mapping that the records build up: each value is appended to the
/// sequence of its key, which is created when the key is first seen.
pub open spec fn grouped(records: Seq<(Seq<u8>, i64)>) -> Map<Seq<u8>, Seq<i64>>
    decreases records.len(),
{
    if records.len() == 0 {
        Map::empty()
    } else {
        with_value(grouped(records.drop_last()), records.last().0, records.last().1)
    }
}

/// The values of the records with this key, in the order of the records.
pub open spec fn values_for(records: Seq<(Seq<u8>, i64)>, key: Seq<u8>) -> Seq<i64>
    decreases records.len(),
{
    if records.len() == 0 {
        Seq::empty()
    } else if records.last().0 == key {
        values_for(records.drop_last(), key).push(records.last().1)
    } else {
        values_for(records.drop_last(), key)
    }
}

/// Grouping keeps for each key the values of its records, all of them and in
/// their order, and holds a key if and only if some record has it.
pub proof fn lemma_grouped_values(records: Seq<(Seq<u8>, i64)>, key: Seq<u8>)
    ensures
        values_of(grouped(records), key) == values_for(records, key),
        grouped(records).contains_key(key) <==> exists|i: int|
            0 <= i < records.len() && (#[trigger] records[i]).0 == key,
        grouped(records).contains_key(key) ==> grouped(records)[key].len() > 0,
    decreases records.len(),
{
    if records.len() > 0 {
        let init = records.drop_last();
        lemma_grouped_values(init, key);
        if exists|i: int| 0 <= i < init.len() && (#[trigger] init[i]).0 == key {
            let i = choose|i: int| 0 <= i < init.len() && (#[trigger] init[i]).0 == key;
            assert(records[i].0 == key);
        }
        if exists|i: int| 0 <= i < records.len() && (#[trigger] records[i]).0 == key {
            let i = choose|i: int| 0 <= i < records.len() && (#[trigger] records[i]).0 == key;
            if i < init.len() {
                assert(init[i].0 == key);
            }
        }
        if records.last().0 == key {
            assert(records[records.len() - 1].0 == key);
        }
    }
}

/// Where every line is a record, the records are the lines, one for one.
pub proof fn lemma_all_lines_records(lines: Seq<Seq<u8>>)
    requires
        forall|i: int| 0 <= i < lines.len() ==> line_kind(#[trigger] lines[i]) is Record,
    ensures
        records_of(lines) == lines.map_values(|l: Seq<u8>| (key_of(l), value_of(l))),
    decreases lines.len(),
{
    if lines.len() > 0 {
        let init = lines.drop_last();
        assert forall|i: int| 0 <= i < init.len() implies line_kind(#[trigger] init[i]) is Record by {
            assert(init[i] == lines[i]);
        }
        lemma_all_lines_records(init);
        assert(line_kind(lines[lines.len() - 1]) is Record);
    }
    assert(records_of(lines) =~= lines.map_values(|l: Seq<u8>| (key_of(l), value_of(l))));
}

/// Where every record has the same key, the values of that key are the
/// values of the records, one for one, and no other key has any.
pub proof fn lemma_single_key_records(records: Seq<(Seq<u8>, i64)>, key: Seq<u8>)
    requires
        forall|i: int| 0 <= i < records.len() ==> (#[trigger] records[i]).0 == key,
    ensures
        values_for(records, key) == records.map_values(|r: (Seq<u8>, i64)| r.1),
    decreases records.len(),
{
    if records.len() > 0 {
        let init = records.drop_last();
        assert forall|i: int| 0 <= i < init.len() implies (#[trigger] init[i]).0 == key by {
            assert(init[i] == records[i]);
        }
        lemma_single_key_records(init, key);
        assert(records[records.len() - 1].0 == key);
    }
    assert(values_for(records, key) =~= records.map_values(|r: (Seq<u8>, i64)| r.1));
}

/// A chunk of valid UTF-8 whose lines are all records of one key yields that
/// key alone, with one value for each line, in line order.
pub proof fn lemma_single_key_chunk(data: Seq<u8>, key: Seq<u8>)
    requires
        valid_utf8(data),
        chunk_lines(data).len() > 0,
        forall|i: int|
            0 <= i < chunk_lines(data).len() ==> line_kind(#[trigger] chunk_lines(data)[i]) is Record
                && key_of(chunk_lines(data)[i]) == key,
    ensures
        chunk_aggregate(data).dom() == set![key],
        chunk_aggregate(data)[key].len() == chunk_lines(data).len(),
        chunk_aggregate(data)[key] == chunk_lines(data).map_values(|l: Seq<u8>| value_of(l)),
{
    let lines = chunk_lines(data);
    let records = records_of(lines);
    lemma_all_lines_records(lines);
    assert forall|i: int| 0 <= i < records.len() implies (#[trigger] records[i]).0 == key by {
        assert(key_of(lines[i]) == key);
    }
    lemma_single_key_records(records, key);
    lemma_grouped_values(records, key);
    assert(records[0].0 == key);
    assert(values_for(records, key) =~= lines.map_values(|l: Seq<u8>| value_of(l)));
    assert forall|k: Seq<u8>| grouped(records).contains_key(k) <==> k == key by {
        lemma_grouped_values(records, k);
    }
    assert(chunk_aggregate(data).dom() =~= set![key]);
}

/// A line that is no record leaves no trace in the records: they are what
/// they would be without the line.
pub proof fn lemma_rejected_line_is_skipped(lines: Seq<Seq<u8>>, at: int)
    requires
        0 <= at < lines.len(),
        !(line_kind(lines[at]) is Record),
    ensures
        records_of(lines) == records_of(lines.remove(at)),
    decreases lines.len(),
{
    if at == lines.len() - 1 {
        assert(lines.remove(at) =~= lines.drop_last());
    } else {
        lemma_rejected_line_is_skipped(lines.drop_last(), at);
        assert(lines.remove(at).drop_last() =~= lines.drop_last().remove(at));
        assert(lines.remove(at).last() == lines.last());
    }
}

/// Kind and text of each diagnostic.
pub open spec fn diagnostic_views(ds: Seq<Diagnostic>) -> Seq<(DiagnosticKind, Seq<u8>)> {
    ds.map_values(|d: Diagnostic| (d.kind, d.text@))
}

/// The aggregate of a chunk: that of its records if the chunk is valid UTF-8,
/// and empty if it is not.
pub open spec fn chunk_aggregate(data: Seq<u8>) -> Map<Seq<u8>, Seq<i64>> {
    if valid_utf8(data) {
        grouped(records_of(chunk_lines(data)))
    } else {
        Map::empty()
    }
}

/// The diagnostics of a chunk: those of its lines if the chunk is valid
/// UTF-8, and none if it is not.
pub open spec fn chunk_diagnostics(data: Seq<u8>) -> Seq<(DiagnosticKind, Seq<u8>)> {
    if valid_utf8(data) {
        diagnostics_of(chunk_lines(data))
    } else {
        Seq::empty()
    }
}

/// Searching a tail of `s` from its start is searching `s` from where the
/// tail begins.
pub proof fn lemma_first_in_tail(s: Seq<u8>, from: int, byte: u8)
    requires
        0 <= from <= s.len(),
    ensures
        first_at_or_after(s.skip(from), 0, byte) == first_at_or_after(s, from, byte) - from,
{
    lemma_first_at_or_after(s, from, byte);
    let at = first_at_or_after(s, from, byte);
    let tail = s.skip(from);
    assert forall|i: int| 0 <= i < at - from implies tail[i] != byte by {
        assert(tail[i] == s[from + i]);
    }
    lemma_first_at_or_after_unique(tail, 0, byte, at - from);
}

/// `std::str::from_utf8`: tells whether the bytes are well-formed UTF-8. The
/// contract takes the function at its documented word, that it succeeds on
/// exactly the byte strings that are valid UTF-8.
#[verifier::external_body]
fn is_utf8(bytes: &[u8]) -> (ok: bool)
    ensures
        ok == valid_utf8(bytes@),
{
    match std::str::from_utf8(bytes) {
        Ok(_) => true,
        Err(_) => false,
    }
}

/// Parses the lines of `chunk`, whatever its encoding.
pub fn parse_lines(chunk: &[u8]) -> (report: ChunkReport)
    ensures
        report.aggregate.wf(),
        report.aggregate@ == grouped(records_of(chunk_lines(chunk@))),
        diagnostic_views(report.diagnostics@) == diagnostics_of(chunk_lines(chunk@)),
{
    let mut aggregate = Aggregate::new();
    let mut diagnostics: Vec<Diagnostic> = Vec::new();
    let ghost mut done: Seq<Seq<u8>> = Seq::empty();
    let mut pos: usize = 0;
    proof {
        assert(chunk@.skip(0) =~= chunk@);
        assert(diagnostic_views(diagnostics@) =~= diagnostics_of(done));
    }
    while pos < chunk.len()
        invariant
            pos <= chunk.len(),
            aggregate.wf(),
            done + chunk_lines(chunk@.skip(pos as int)) == chunk_lines(chunk@),
            aggregate@ == grouped(records_of(done)),
            diagnostic_views(diagnostics@) == diagnostics_of(done),
        decreases chunk.len() - pos,
    {
        proof {
            lemma_first_at_or_after(chunk@, pos as int, LINE_END);
            lemma_first_in_tail(chunk@, pos as int, LINE_END);
        }
        let end = find_byte(chunk, pos, LINE_END);
        let line = slice_subrange(chunk, pos, end);
        let next: usize = if end < chunk.len() {
            end + 1
        } else {
            end
        };
        proof {
            let tail = chunk@.skip(pos as int);
            assert(tail.take(end - pos) =~= line@);
            if end < chunk.len() {
                assert(tail.skip(end - pos + 1) =~= chunk@.skip(next as int));
            } else {
                assert(tail =~= line@);
                assert(chunk_lines(chunk@.skip(next as int)) =~= Seq::<Seq<u8>>::empty());
            }
            assert(chunk_lines(tail) =~= seq![line@] + chunk_lines(chunk@.skip(next as int)));
            assert(done.push(line@) + chunk_lines(chunk@.skip(next as int)) =~= done + chunk_lines(
                tail,
            ));
        }
        let ghost before = diagnostic_views(diagnostics@);
        if line.len() > 0 {
            match split_line(line) {
                None => {
                    diagnostics.push(
                        Diagnostic { kind: DiagnosticKind::MissingDelimiter, text: slice_to_vec(line) },
                    );
                    proof {
                        assert(diagnostic_views(diagnostics@) =~= before.push(
                            (DiagnosticKind::MissingDelimiter, line@),
                        ));
                    }
                },
                Some((key, raw)) => {
                    if !check_key(key) {
                        diagnostics.push(
                            Diagnostic { kind: DiagnosticKind::InvalidKey, text: slice_to_vec(key) },
                        );
                        proof {
                            assert(diagnostic_views(diagnostics@) =~= before.push(
                                (DiagnosticKind::InvalidKey, key@),
                            ));
                        }
                    } else {
                        match parse_value(raw) {
                            ValueOutcome::Valid(value) => {
                                aggregate.record(key, value);
                            },
                            ValueOutcome::Invalid => {
                                diagnostics.push(
                                    Diagnostic {
                                        kind: DiagnosticKind::InvalidValue,
                                        text: slice_to_vec(raw),
                                    },
                                );
                                proof {
                                    assert(diagnostic_views(diagnostics@) =~= before.push(
                                        (DiagnosticKind::InvalidValue, raw@),
                                    ));
                                }
                            },
                            ValueOutcome::Unparsable => {},
                        }
                    }
                },
            }
        }
        proof {
            let grown = done.push(line@);
            assert(grown.drop_last() =~= done);
            match line_kind(line@) {
                LineKind::Record(v) => {
                    let records = records_of(done);
                    assert(records.push((key_of(line@), v)).drop_last() =~= records);
                },
                _ => {},
            }
            done = grown;
        }
        pos = next;
    }
    proof {
        assert(chunk_lines(chunk@.skip(pos as int)) =~= Seq::<Seq<u8>>::empty());
        assert(done + Seq::<Seq<u8>>::empty() =~= done);
    }
    ChunkReport { aggregate, diagnostics }
}

/// Parses one chunk. A chunk that is not valid UTF-8 yields an empty
/// aggregate and no diagnostics; nothing it holds is read.
pub fn process_chunk(chunk: &[u8]) -> (report: ChunkReport)
    ensures
        report.aggregate.wf(),
        report.aggregate@ == chunk_aggregate(chunk@),
        diagnostic_views(report.diagnostics@) == chunk_diagnostics(chunk@),
{
    if is_utf8(chunk) {
        parse_lines(chunk)
    } else {
        let diagnostics: Vec<Diagnostic> = Vec::new();
        proof {
            assert(diagnostic_views(diagnostics@) =~= Seq::empty());
        }
        ChunkReport { aggregate: Aggregate::new(), diagnostics }
    }
}

} // verus!
