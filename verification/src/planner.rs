//! Division of a byte buffer into record-aligned chunks, one per worker.

use vstd::prelude::*;
use crate::scan::{find_byte, first_at_or_after, lemma_first_at_or_after, lemma_first_at_or_after_monotone};

verus! {

/// The byte that ends a record.
pub const LINE_END: u8 = 10;

/// A half-open range of byte offsets, `start` included and `end` excluded.
#[derive(Clone, Copy, Debug, PartialEq, Eq)]
pub struct ChunkRange {
    pub start: usize,
    pub end: usize,
}

/// The first index at or after `from` that holds a line end, or the length of
/// `data` when there is none. An index beyond the buffer stays where it is.
pub open spec fn next_line_end(data: Seq<u8>, from: int) -> int {
    first_at_or_after(data, from, LINE_END)
}

/// Where chunk `i` of `workers` ends: the last chunk at the end of the buffer,
/// every other one at the first line end at or after its even share.
pub open spec fn planned_end(data: Seq<u8>, workers: int, i: int) -> int {
    if i >= workers - 1 {
        data.len() as int
    } else {
        next_line_end(data, (i + 1) * (data.len() as int / workers))
    }
}

/// Where chunk `i` of `workers` starts: where the chunk before it ended.
pub open spec fn planned_start(data: Seq<u8>, workers: int, i: int) -> int {
    if i <= 0 {
        0
    } else {
        planned_end(data, workers, i - 1)
    }
}

/// The ranges follow one another from offset 0 to offset `len` with no byte
/// between two of them and none in both.
pub open spec fn tiles(plan: Seq<ChunkRange>, len: int) -> bool {
    &&& plan.len() >= 1
    &&& plan[0].start == 0
    &&& plan[plan.len() - 1].end == len
    &&& forall|i: int| 0 <= i < plan.len() ==> (#[trigger] plan[i]).start <= plan[i].end
    &&& forall|i: int| 0 <= i < plan.len() - 1 ==> (#[trigger] plan[i]).end == plan[i + 1].start
}

/// Byte offset `at` lies in range `r`.
pub open spec fn covers(r: ChunkRange, at: int) -> bool {
    r.start <= at < r.end
}

/// Moves a proposed chunk end forward to the next line end, so that no record
/// straddles the boundary. The result depends on `end` alone.
pub fn adjust_chunk_boundary(data: &[u8], _start: usize, end: usize) -> (adjusted: usize)
    ensures
        adjusted == next_line_end(data@, end as int),
        end <= data.len() ==> end <= adjusted <= data.len(),
        end <= data.len() ==> forall|i: int| end <= i < adjusted ==> data[i] != LINE_END,
        adjusted < data.len() ==> data[adjusted as int] == LINE_END,
        end > data.len() ==> adjusted == end,
{
    proof {
        if end <= data.len() {
            lemma_first_at_or_after(data@, end as int, LINE_END);
        }
    }
    find_byte(data, end, LINE_END)
}

proof fn lemma_share_fits(len: int, workers: int, i: int)
    requires
        0 <= len,
        1 <= workers,
        0 <= i <= workers,
    ensures
        0 <= i * (len / workers) <= len,
        i < workers ==> i * (len / workers) <= (i + 1) * (len / workers),
{
    let share = len / workers;
    assert(0 <= share);
    assert(workers * share <= len) by (nonlinear_arith)
        requires
            share == len / workers,
            workers >= 1,
            len >= 0,
    ;
    assert(0 <= i * share <= workers * share) by (nonlinear_arith)
        requires
            0 <= i <= workers,
            0 <= share,
    ;
    assert(i * share <= (i + 1) * share) by (nonlinear_arith)
        requires
            0 <= share,
    ;
}

/// The planned ends never go backwards and never pass the end of the buffer.
pub proof fn lemma_planned_end_bounds(data: Seq<u8>, workers: int, i: int)
    requires
        1 <= workers,
        0 <= i < workers,
    ensures
        planned_start(data, workers, i) <= planned_end(data, workers, i) <= data.len(),
        0 <= planned_start(data, workers, i),
        i < workers - 1 ==> (planned_end(data, workers, i) == data.len() || data[planned_end(
            data,
            workers,
            i,
        )] == LINE_END),
{
    let len = data.len() as int;
    let share = len / workers;
    lemma_share_fits(len, workers, i);
    lemma_share_fits(len, workers, i + 1);
    if i < workers - 1 {
        lemma_first_at_or_after(data, (i + 1) * share, LINE_END);
    }
    if i > 0 {
        lemma_first_at_or_after(data, i * share, LINE_END);
        if i < workers - 1 {
            lemma_first_at_or_after_monotone(data, i * share, (i + 1) * share, LINE_END);
        }
    }
}

/// Cuts `data` into `workers` consecutive ranges. Every range but the last
/// ends on the first line end at or after its even share of the buffer, or at
/// the end of the buffer when no line end is left; the last one ends with the
/// buffer. A range may be empty.
pub fn plan_chunks(data: &[u8], workers: usize) -> (plan: Vec<ChunkRange>)
    requires
        workers >= 1,
    ensures
        plan.len() == workers,
        forall|i: int|
            0 <= i < workers ==> (#[trigger] plan[i]).start == planned_start(
                data@,
                workers as int,
                i,
            ) && plan[i].end == planned_end(data@, workers as int, i),
        tiles(plan@, data.len() as int),
        forall|i: int| 0 <= i < workers ==> (#[trigger] plan[i]).end <= data.len(),
        forall|i: int|
            0 <= i < workers - 1 ==> ((#[trigger] plan[i]).end == data.len() || data[plan[i].end as int]
                == LINE_END),
{
    let len = data.len();
    let share = len / workers;
    let mut plan: Vec<ChunkRange> = Vec::new();
    let mut start: usize = 0;
    let mut i: usize = 0;
    while i < workers
        invariant
            workers >= 1,
            len == data.len(),
            share == len / workers,
            i <= workers,
            plan.len() == i,
            start == planned_start(data@, workers as int, i as int),
            start <= len,
            forall|j: int|
                0 <= j < i ==> (#[trigger] plan[j]).start == planned_start(data@, workers as int, j)
                    && plan[j].end == planned_end(data@, workers as int, j),
        decreases workers - i,
    {
        proof {
            lemma_share_fits(len as int, workers as int, i as int + 1);
            lemma_planned_end_bounds(data@, workers as int, i as int);
        }
        let end: usize = if i == workers - 1 {
            len
        } else {
            adjust_chunk_boundary(data, start, (i + 1) * share)
        };
        plan.push(ChunkRange { start, end });
        start = end;
        i += 1;
    }
    proof {
        assert forall|j: int| 0 <= j < workers implies (#[trigger] plan[j]).start <= plan[j].end
            && plan[j].end <= data.len() && (j < workers - 1 ==> (plan[j].end == data.len()
            || data[plan[j].end as int] == LINE_END)) by {
            lemma_planned_end_bounds(data@, workers as int, j);
        }
    }
    plan
}

/// The number of workers for a machine that reports `processors` processors:
/// one for each, and one where it reports none.
pub open spec fn worker_count(processors: int) -> int {
    if processors <= 0 {
        1
    } else {
        processors
    }
}

/// The number of workers to plan for on a machine that reports `processors`
/// processors.
pub fn workers_for(processors: usize) -> (workers: usize)
    ensures
        workers == worker_count(processors as int),
        workers >= 1,
{
    if processors == 0 {
        1
    } else {
        processors
    }
}

/// `num_cpus::get`: the number of logical processors that this process may
/// use. The number depends on the machine and nothing is claimed of it.
#[verifier::external_body]
fn available_processors() -> (n: usize) {
    num_cpus::get()
}

/// The number of workers to plan for: the number of processors available when
/// it is called, and never less than one.
pub fn host_worker_count() -> (workers: usize)
    ensures
        workers >= 1,
{
    workers_for(available_processors())
}

/// Under a tiling every byte of the buffer lies in a range, and in one only.
pub proof fn lemma_tiles_cover_once(plan: Seq<ChunkRange>, len: int, at: int)
    requires
        tiles(plan, len),
        0 <= at < len,
    ensures
        exists|i: int| 0 <= i < plan.len() && covers(#[trigger] plan[i], at),
        forall|i: int, j: int|
            0 <= i < plan.len() && 0 <= j < plan.len() && covers(#[trigger] plan[i], at) && covers(
                #[trigger] plan[j],
                at,
            ) ==> i == j,
{
    lemma_tiles_find(plan, len, at, plan.len() - 1);
    assert forall|i: int, j: int|
        0 <= i < plan.len() && 0 <= j < plan.len() && covers(#[trigger] plan[i], at) && covers(
            #[trigger] plan[j],
            at,
        ) implies i == j by {
        if i < j {
            lemma_tiles_ordered(plan, len, i, j);
        } else if j < i {
            lemma_tiles_ordered(plan, len, j, i);
        }
    }
}

proof fn lemma_tiles_ordered(plan: Seq<ChunkRange>, len: int, i: int, j: int)
    requires
        tiles(plan, len),
        0 <= i < j < plan.len(),
    ensures
        plan[i].end <= plan[j].start,
    decreases j - i,
{
    if i + 1 < j {
        lemma_tiles_ordered(plan, len, i, j - 1);
        assert(plan[j - 1].start <= plan[j - 1].end);
        assert(plan[j - 1].end == plan[j].start);
    } else {
        assert(plan[i].end == plan[i + 1].start);
    }
}

proof fn lemma_tiles_find(plan: Seq<ChunkRange>, len: int, at: int, upto: int)
    requires
        tiles(plan, len),
        0 <= upto < plan.len(),
        0 <= at < plan[upto].end,
    ensures
        exists|i: int| 0 <= i < plan.len() && covers(#[trigger] plan[i], at),
    decreases upto,
{
    if plan[upto].start <= at {
        assert(covers(plan[upto], at));
    } else {
        assert(upto > 0);
        assert(plan[upto - 1].end == plan[upto].start);
        lemma_tiles_find(plan, len, at, upto - 1);
    }
}

} // verus!
