//! Cutting a buffer at line ends does not change what is read from it: the
//! chunks of any plan, parsed one by one and merged, give what the whole
//! buffer gives when it is parsed in one piece.

use vstd::prelude::*;
use vstd::utf8::{
    is_char_boundary, is_char_boundary_iff_not_is_continuation_byte, is_char_boundary_start_end_of_seq,
    valid_utf8, valid_utf8_split,
};
use crate::aggregate::values_of;
use crate::chunk::{chunk_aggregate, chunk_diagnostics, chunk_lines, diagnostics_of, grouped, line_diagnostic, records_of, DiagnosticKind};
use crate::merge::{absorbed, lemma_merged_none, lemma_merged_step, merged};
use crate::pipeline::{all_diagnostics, partial_aggregates, planned_chunks, run_results};
use crate::planner::{lemma_planned_end_bounds, planned_end, planned_start, LINE_END};
use crate::record::{line_kind, LineKind};
use crate::scan::{first_at_or_after, lemma_first_at_or_after, lemma_first_at_or_after_unique};

verus! {

/// `at` is the start of the buffer, its end, or the place of a line end.
pub open spec fn at_line_boundary(data: Seq<u8>, at: int) -> bool {
    0 <= at <= data.len() && (at == 0 || at == data.len() || data[at] == LINE_END)
}

/// The records of two runs of lines are those of the first followed by those
/// of the second, and so are the diagnostics.
pub proof fn lemma_lines_concat(a: Seq<Seq<u8>>, b: Seq<Seq<u8>>)
    ensures
        records_of(a + b) == records_of(a) + records_of(b),
        diagnostics_of(a + b) == diagnostics_of(a) + diagnostics_of(b),
    decreases b.len(),
{
    if b.len() == 0 {
        assert(a + b =~= a);
        assert(records_of(a) + records_of(b) =~= records_of(a));
        assert(diagnostics_of(a) + diagnostics_of(b) =~= diagnostics_of(a));
    } else {
        lemma_lines_concat(a, b.drop_last());
        assert((a + b).drop_last() =~= a + b.drop_last());
        assert((a + b).last() == b.last());
        assert(records_of(a + b) =~= records_of(a) + records_of(b));
        assert(diagnostics_of(a + b) =~= diagnostics_of(a) + diagnostics_of(b));
    }
}

/// A buffer cut where its second part is empty or begins with a line end, or
/// where its first part is empty, holds the records and the diagnostics of
/// the first part followed by those of the second.
pub proof fn lemma_cut_keeps_lines(x: Seq<u8>, y: Seq<u8>)
    requires
        x.len() == 0 || y.len() == 0 || y[0] == LINE_END,
    ensures
        records_of(chunk_lines(x + y)) == records_of(chunk_lines(x)) + records_of(chunk_lines(y)),
        diagnostics_of(chunk_lines(x + y)) == diagnostics_of(chunk_lines(x)) + diagnostics_of(
            chunk_lines(y),
        ),
    decreases x.len(),
{
    let whole = x + y;
    if x.len() == 0 {
        assert(whole =~= y);
        assert(records_of(chunk_lines(x)) + records_of(chunk_lines(y)) =~= records_of(chunk_lines(y)));
        assert(diagnostics_of(chunk_lines(x)) + diagnostics_of(chunk_lines(y)) =~= diagnostics_of(
            chunk_lines(y),
        ));
    } else if y.len() == 0 {
        assert(whole =~= x);
        assert(records_of(chunk_lines(x)) + records_of(chunk_lines(y)) =~= records_of(chunk_lines(x)));
        assert(diagnostics_of(chunk_lines(x)) + diagnostics_of(chunk_lines(y)) =~= diagnostics_of(
            chunk_lines(x),
        ));
    } else {
        lemma_first_at_or_after(x, 0, LINE_END);
        let e = first_at_or_after(x, 0, LINE_END);
        assert forall|i: int| 0 <= i < e implies whole[i] != LINE_END by {
            assert(whole[i] == x[i]);
        }
        assert(whole[e] == LINE_END) by {
            if e < x.len() {
                assert(whole[e] == x[e]);
            } else {
                assert(whole[e] == y[0]);
            }
        }
        lemma_first_at_or_after_unique(whole, 0, LINE_END, e);
        if e < x.len() {
            let rest = x.skip(e + 1);
            lemma_cut_keeps_lines(rest, y);
            assert(whole.skip(e + 1) =~= rest + y);
            assert(whole.take(e) =~= x.take(e));
            let head = seq![x.take(e)];
            assert(chunk_lines(whole) == head + chunk_lines(rest + y));
            assert(chunk_lines(x) == head + chunk_lines(rest));
            lemma_lines_concat(head, chunk_lines(rest + y));
            lemma_lines_concat(head, chunk_lines(rest));
            assert(records_of(chunk_lines(whole)) =~= records_of(chunk_lines(x)) + records_of(
                chunk_lines(y),
            ));
            assert(diagnostics_of(chunk_lines(whole)) =~= diagnostics_of(chunk_lines(x))
                + diagnostics_of(chunk_lines(y)));
        } else {
            let after = y.skip(1);
            assert(whole.skip(e + 1) =~= after);
            assert(whole.take(e) =~= x);
            assert(chunk_lines(x) == seq![x]);
            assert(chunk_lines(whole) == seq![x] + chunk_lines(after));
            lemma_first_at_or_after_unique(y, 0, LINE_END, 0);
            let blank = seq![y.take(0)];
            assert(chunk_lines(y) == blank + chunk_lines(after));
            assert(y.take(0) =~= Seq::<u8>::empty());
            assert(line_kind(y.take(0)) == LineKind::Blank);
            assert(line_diagnostic(y.take(0)) == None::<(DiagnosticKind, Seq<u8>)>);
            assert(blank.drop_last() =~= Seq::<Seq<u8>>::empty());
            assert(blank.last() == y.take(0));
            assert(records_of(Seq::<Seq<u8>>::empty()) =~= Seq::<(Seq<u8>, i64)>::empty());
            assert(diagnostics_of(Seq::<Seq<u8>>::empty()) =~= Seq::<(DiagnosticKind, Seq<u8>)>::empty());
            assert(records_of(blank) =~= Seq::<(Seq<u8>, i64)>::empty());
            assert(diagnostics_of(blank) =~= Seq::<(DiagnosticKind, Seq<u8>)>::empty());
            lemma_lines_concat(blank, chunk_lines(after));
            lemma_lines_concat(seq![x], chunk_lines(after));
            assert(records_of(chunk_lines(whole)) =~= records_of(chunk_lines(x)) + records_of(
                chunk_lines(y),
            ));
            assert(diagnostics_of(chunk_lines(whole)) =~= diagnostics_of(chunk_lines(x))
                + diagnostics_of(chunk_lines(y)));
        }
    }
}

/// Grouping two runs of records in one go gives what grouping each and
/// merging the two gives.
pub proof fn lemma_grouped_concat(first: Seq<(Seq<u8>, i64)>, second: Seq<(Seq<u8>, i64)>)
    ensures
        grouped(first + second) == absorbed(grouped(first), grouped(second)),
    decreases second.len(),
{
    if second.len() == 0 {
        assert(first + second =~= first);
        assert(absorbed(grouped(first), grouped(second)) =~= grouped(first));
    } else {
        lemma_grouped_concat(first, second.drop_last());
        assert((first + second).drop_last() =~= first + second.drop_last());
        assert((first + second).last() == second.last());
        let key = second.last().0;
        let before = absorbed(grouped(first), grouped(second.drop_last()));
        assert(values_of(before, key) =~= values_of(grouped(first), key) + values_of(
            grouped(second.drop_last()),
            key,
        ));
        assert(grouped(first + second) =~= absorbed(grouped(first), grouped(second)));
    }
}

/// A piece of valid UTF-8 that is cut out at line boundaries is valid UTF-8.
pub proof fn lemma_cut_is_valid(data: Seq<u8>, from: int, to: int)
    requires
        valid_utf8(data),
        from <= to,
        at_line_boundary(data, from),
        at_line_boundary(data, to),
    ensures
        valid_utf8(data.subrange(from, to)),
{
    is_char_boundary_start_end_of_seq(data);
    if to < data.len() {
        is_char_boundary_iff_not_is_continuation_byte(data, to);
    }
    assert(is_char_boundary(data, to));
    valid_utf8_split(data, to);
    let head = data.subrange(0, to);
    is_char_boundary_start_end_of_seq(head);
    if from < to {
        is_char_boundary_iff_not_is_continuation_byte(head, from);
        assert(head[from] == data[from]);
    }
    assert(is_char_boundary(head, from));
    valid_utf8_split(head, from);
    assert(head.subrange(from, head.len() as int) =~= data.subrange(from, to));
}

proof fn lemma_chunks_upto(data: Seq<u8>, workers: int, n: int)
    requires
        valid_utf8(data),
        workers >= 1,
        0 <= n <= workers,
    ensures
        merged(partial_aggregates(planned_chunks(data, workers).take(n))) == grouped(
            records_of(chunk_lines(data.take(planned_start(data, workers, n)))),
        ),
        all_diagnostics(planned_chunks(data, workers).take(n)) == diagnostics_of(
            chunk_lines(data.take(planned_start(data, workers, n))),
        ),
    decreases n,
{
    let chunks = planned_chunks(data, workers);
    if n == 0 {
        lemma_merged_none();
        assert(partial_aggregates(chunks.take(0)) =~= Seq::empty());
        assert(data.take(0) =~= Seq::<u8>::empty());
    } else {
        let i = n - 1;
        lemma_chunks_upto(data, workers, i);
        lemma_planned_end_bounds(data, workers, i);
        if i > 0 {
            lemma_planned_end_bounds(data, workers, i - 1);
        }
        let from = planned_start(data, workers, i);
        let to = planned_end(data, workers, i);
        assert(to == planned_start(data, workers, n));
        let x = data.take(from);
        let y = data.subrange(from, to);
        assert(chunks[i] == y);
        assert(x + y =~= data.take(to));
        lemma_cut_is_valid(data, from, to);
        lemma_cut_keeps_lines(x, y);
        lemma_grouped_concat(records_of(chunk_lines(x)), records_of(chunk_lines(y)));
        let parts = partial_aggregates(chunks.take(n));
        assert(parts.drop_last() =~= partial_aggregates(chunks.take(i)));
        assert(parts.last() == chunk_aggregate(y));
        lemma_merged_step(parts);
        assert(chunks.take(n).drop_last() =~= chunks.take(i));
        assert(chunks.take(n).last() == y);
    }
}

/// However many workers a buffer of valid UTF-8 is cut up for, the merged
/// aggregate of its chunks is the aggregate of the whole buffer, and the
/// diagnostics of its chunks are those of the whole buffer: no record is
/// split, none is read twice and none is lost.
pub proof fn lemma_chunking_is_invisible(data: Seq<u8>, workers: int)
    requires
        valid_utf8(data),
        workers >= 1,
    ensures
        merged(partial_aggregates(planned_chunks(data, workers))) == chunk_aggregate(data),
        all_diagnostics(planned_chunks(data, workers)) == chunk_diagnostics(data),
{
    lemma_chunks_upto(data, workers, workers);
    let chunks = planned_chunks(data, workers);
    assert(chunks.take(workers) =~= chunks);
    assert(data.take(data.len() as int) =~= data);
}

/// Two runs over the same bytes write the same results and give the same
/// diagnostics. For valid UTF-8 this holds whatever the two worker counts
/// are; for any bytes it holds where the worker counts are the same.
pub proof fn lemma_runs_agree(data: Seq<u8>, workers: int, others: int)
    requires
        workers >= 1,
        others >= 1,
        valid_utf8(data) || workers == others,
    ensures
        run_results(planned_chunks(data, workers)) == run_results(planned_chunks(data, others)),
        all_diagnostics(planned_chunks(data, workers)) == all_diagnostics(
            planned_chunks(data, others),
        ),
{
    if valid_utf8(data) {
        lemma_chunking_is_invisible(data, workers);
        lemma_chunking_is_invisible(data, others);
    }
}

} // verus!
