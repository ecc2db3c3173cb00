//! The stages in sequence: plan, parse each chunk, merge, summarise, write.

use vstd::prelude::*;
use vstd::slice::{slice_subrange, slice_to_vec};
use crate::aggregate::Aggregate;
use crate::chunk::{chunk_aggregate, chunk_diagnostics, diagnostic_views, process_chunk, ChunkReport, Diagnostic, DiagnosticKind};
use crate::keys::{ascending_keys, lemma_ascending_keys};
use crate::merge::{absorb, lemma_merged_none, lemma_merged_step, merged};
use crate::planner::{plan_chunks, planned_end, planned_start, ChunkRange};
use crate::render::{render_results, rendered};
use crate::stats::{calculate_statistics, statistics_of, StatsError, MAX_KEYS};

verus! {

/// What a run yields: the diagnostics of all chunks in chunk order, and the
/// text of the results, or the reason why there is none.
pub struct RunReport {
    pub diagnostics: Vec<Diagnostic>,
    pub results: Result<Vec<u8>, StatsError>,
}

/// The bytes of each range of `plan`.
pub open spec fn chunks_of(data: Seq<u8>, plan: Seq<ChunkRange>) -> Seq<Seq<u8>> {
    plan.map_values(|r: ChunkRange| data.subrange(r.start as int, r.end as int))
}

/// The chunks that `data` is cut into for `workers` workers.
pub open spec fn planned_chunks(data: Seq<u8>, workers: int) -> Seq<Seq<u8>> {
    Seq::new(
        workers as nat,
        |i: int| data.subrange(planned_start(data, workers, i), planned_end(data, workers, i)),
    )
}

/// The partial aggregate of each chunk.
pub open spec fn partial_aggregates(chunks: Seq<Seq<u8>>) -> Seq<Map<Seq<u8>, Seq<i64>>> {
    chunks.map_values(|c: Seq<u8>| chunk_aggregate(c))
}

/// The diagnostics of all chunks, one chunk after the other.
pub open spec fn all_diagnostics(chunks: Seq<Seq<u8>>) -> Seq<(DiagnosticKind, Seq<u8>)>
    decreases chunks.len(),
{
    if chunks.len() == 0 {
        Seq::empty()
    } else {
        all_diagnostics(chunks.drop_last()) + chunk_diagnostics(chunks.last())
    }
}

/// The text of the results for a merged aggregate, or the failure where it
/// holds too many keys.
pub open spec fn results_for(global: Map<Seq<u8>, Seq<i64>>) -> Result<Seq<u8>, StatsError> {
    if global.dom().len() > MAX_KEYS {
        Err(StatsError::CapacityExceeded)
    } else {
        Ok(rendered(ascending_keys(global.dom()), statistics_of(global)))
    }
}

/// The results of the run over these chunks.
pub open spec fn run_results(chunks: Seq<Seq<u8>>) -> Result<Seq<u8>, StatsError> {
    results_for(merged(partial_aggregates(chunks)))
}

/// `report` is what parsing `chunk` yields.
pub open spec fn reports_chunk(report: ChunkReport, chunk: Seq<u8>) -> bool {
    &&& report.aggregate.wf()
    &&& report.aggregate@ == chunk_aggregate(chunk)
    &&& diagnostic_views(report.diagnostics@) == chunk_diagnostics(chunk)
}

/// The aggregate of each report.
pub open spec fn report_aggregates(reports: Seq<ChunkReport>) -> Seq<Map<Seq<u8>, Seq<i64>>> {
    reports.map_values(|r: ChunkReport| r.aggregate@)
}

/// The diagnostics of all reports, one report after the other.
pub open spec fn report_diagnostics(reports: Seq<ChunkReport>) -> Seq<(DiagnosticKind, Seq<u8>)>
    decreases reports.len(),
{
    if reports.len() == 0 {
        Seq::empty()
    } else {
        report_diagnostics(reports.drop_last()) + diagnostic_views(reports.last().diagnostics@)
    }
}

/// `result` holds the text `want`, or the same failure.
pub open spec fn same_results(result: Result<Vec<u8>, StatsError>, want: Result<Seq<u8>, StatsError>) -> bool {
    match (result, want) {
        (Ok(text), Ok(w)) => text@ == w,
        (Err(e), Err(w)) => e == w,
        _ => false,
    }
}

/// Reports that belong to the chunks one by one hold the diagnostics of the
/// chunks.
pub proof fn lemma_report_diagnostics(reports: Seq<ChunkReport>, chunks: Seq<Seq<u8>>)
    requires
        reports.len() == chunks.len(),
        forall|i: int| 0 <= i < reports.len() ==> reports_chunk(#[trigger] reports[i], chunks[i]),
    ensures
        report_diagnostics(reports) == all_diagnostics(chunks),
        report_aggregates(reports) == partial_aggregates(chunks),
    decreases reports.len(),
{
    if reports.len() > 0 {
        let r = reports.drop_last();
        let c = chunks.drop_last();
        assert forall|i: int| 0 <= i < r.len() implies reports_chunk(#[trigger] r[i], c[i]) by {
            assert(reports_chunk(reports[i], chunks[i]));
        }
        lemma_report_diagnostics(r, c);
        assert(reports_chunk(reports[reports.len() - 1], chunks[reports.len() - 1]));
    }
    assert forall|i: int| 0 <= i < reports.len() implies report_aggregates(reports)[i]
        == partial_aggregates(chunks)[i] by {
        assert(reports_chunk(reports[i], chunks[i]));
    }
    assert(report_aggregates(reports) =~= partial_aggregates(chunks));
}

/// Parses the chunks of `plan` one after the other.
pub fn process_chunks(data: &[u8], plan: &Vec<ChunkRange>) -> (reports: Vec<ChunkReport>)
    requires
        forall|i: int| 0 <= i < plan.len() ==> (#[trigger] plan[i]).start <= plan[i].end <= data.len(),
    ensures
        reports.len() == plan.len(),
        forall|i: int|
            0 <= i < plan.len() ==> reports_chunk(#[trigger] reports[i], chunks_of(data@, plan@)[i]),
{
    let mut reports: Vec<ChunkReport> = Vec::new();
    let mut i: usize = 0;
    while i < plan.len()
        invariant
            i <= plan.len(),
            reports.len() == i,
            forall|j: int| 0 <= j < plan.len() ==> (#[trigger] plan[j]).start <= plan[j].end <= data.len(),
            forall|j: int| 0 <= j < i ==> reports_chunk(#[trigger] reports[j], chunks_of(data@, plan@)[j]),
        decreases plan.len() - i,
    {
        let range = plan[i];
        let report = process_chunk(slice_subrange(data, range.start, range.end));
        reports.push(report);
        i += 1;
    }
    reports
}

fn append_diagnostics(all: &mut Vec<Diagnostic>, more: &Vec<Diagnostic>)
    ensures
        diagnostic_views(final(all)@) == diagnostic_views(old(all)@) + diagnostic_views(more@),
{
    let mut i: usize = 0;
    proof {
        assert(diagnostic_views(all@) =~= diagnostic_views(old(all)@) + diagnostic_views(more@).take(0));
    }
    while i < more.len()
        invariant
            i <= more.len(),
            diagnostic_views(all@) == diagnostic_views(old(all)@) + diagnostic_views(more@).take(i as int),
        decreases more.len() - i,
    {
        let ghost before = diagnostic_views(all@);
        let copy = Diagnostic { kind: more[i].kind, text: slice_to_vec(more[i].text.as_slice()) };
        all.push(copy);
        proof {
            assert(diagnostic_views(all@) =~= before.push((more[i as int].kind, more[i as int].text@)));
            assert(diagnostic_views(more@).take(i as int + 1) =~= diagnostic_views(more@).take(
                i as int,
            ).push(diagnostic_views(more@)[i as int]));
        }
        i += 1;
    }
    proof {
        assert(diagnostic_views(more@).take(i as int) =~= diagnostic_views(more@));
    }
}

/// Merges the aggregates of the reports in their order, summarises the
/// result and writes it out; gathers the diagnostics in the same order.
pub fn conclude(reports: &Vec<ChunkReport>) -> (out: RunReport)
    requires
        forall|i: int| 0 <= i < reports.len() ==> (#[trigger] reports[i]).aggregate.wf(),
    ensures
        diagnostic_views(out.diagnostics@) == report_diagnostics(reports@),
        same_results(out.results, results_for(merged(report_aggregates(reports@)))),
{
    let ghost parts = report_aggregates(reports@);
    let mut global = Aggregate::new();
    let mut diagnostics: Vec<Diagnostic> = Vec::new();
    let mut i: usize = 0;
    proof {
        lemma_merged_none();
        assert(parts.take(0) =~= Seq::empty());
        assert(reports@.take(0) =~= Seq::empty());
        assert(diagnostic_views(diagnostics@) =~= Seq::empty());
    }
    while i < reports.len()
        invariant
            i <= reports.len(),
            parts == report_aggregates(reports@),
            forall|j: int| 0 <= j < reports.len() ==> (#[trigger] reports[j]).aggregate.wf(),
            global.wf(),
            global@ == merged(parts.take(i as int)),
            diagnostic_views(diagnostics@) == report_diagnostics(reports@.take(i as int)),
        decreases reports.len() - i,
    {
        absorb(&mut global, &reports[i].aggregate);
        append_diagnostics(&mut diagnostics, &reports[i].diagnostics);
        proof {
            assert(parts.take(i as int + 1).drop_last() =~= parts.take(i as int));
            assert(parts.take(i as int + 1).last() == reports[i as int].aggregate@);
            lemma_merged_step(parts.take(i as int + 1));
            assert(reports@.take(i as int + 1).drop_last() =~= reports@.take(i as int));
            assert(reports@.take(i as int + 1).last() == reports[i as int]);
        }
        i += 1;
    }
    proof {
        assert(parts.take(i as int) =~= parts);
        assert(reports@.take(i as int) =~= reports@);
        global.lemma_wf();
        assert(global@.dom() =~= global.keys().to_set());
        lemma_ascending_keys(global.keys());
    }
    let results = match calculate_statistics(global) {
        Ok(stats) => Ok(render_results(&stats)),
        Err(e) => Err(e),
    };
    RunReport { diagnostics, results }
}

/// Runs all stages over `data` with `workers` chunks, one chunk after the
/// other.
pub fn run(data: &[u8], workers: usize) -> (out: RunReport)
    requires
        workers >= 1,
    ensures
        diagnostic_views(out.diagnostics@) == all_diagnostics(planned_chunks(data@, workers as int)),
        same_results(out.results, run_results(planned_chunks(data@, workers as int))),
{
    let plan = plan_chunks(data, workers);
    let reports = process_chunks(data, &plan);
    proof {
        let chunks = planned_chunks(data@, workers as int);
        assert(chunks_of(data@, plan@) =~= chunks);
        lemma_report_diagnostics(reports@, chunks);
    }
    conclude(&reports)
}

} // verus!
