//! Minimum, median and maximum of each key, rounded to whole numbers, under a
//! cap on the number of distinct keys.

use vstd::prelude::*;
use vstd::relations::{sorted_by, total_ordering};
use vstd::seq_lib::lemma_sorted_unique;
use vstd::slice::slice_to_vec;
use crate::aggregate::Aggregate;
use crate::keys::{ascending, find_key, key_views, lemma_table_insert, lemma_table_update, lemma_table_view, table_view};
use crate::rounding::round_ratio;
use crate::value::SCALE;

verus! {

/// The greatest number of distinct keys that are summarised.
pub const MAX_KEYS: usize = 10_000;

/// Minimum, median and maximum of one key, each a whole number.
#[derive(Clone, Copy, Debug, PartialEq, Eq)]
pub struct Summary {
    pub min: i64,
    pub median: i64,
    pub max: i64,
}

/// Why no statistics were produced.
#[derive(Clone, Copy, Debug, PartialEq, Eq)]
pub enum StatsError {
    /// The aggregate holds more than `MAX_KEYS` distinct keys.
    CapacityExceeded,
}

/// The whole number nearest to the number that `v` stands for.
pub open spec fn rounded(v: i64) -> int {
    round_ratio(v as int, SCALE as int)
}

/// The whole number nearest to the mean of the numbers that `a` and `b` stand
/// for.
pub open spec fn rounded_mean(a: i64, b: i64) -> int {
    round_ratio(a + b, 2 * SCALE)
}

/// The order of values.
pub open spec fn value_leq() -> spec_fn(i64, i64) -> bool {
    |a: i64, b: i64| a <= b
}

/// No value of `s` is greater than a later one.
pub open spec fn non_decreasing(s: Seq<i64>) -> bool {
    forall|i: int, j: int| 0 <= i < j < s.len() ==> s[i] <= s[j]
}

/// The values in ascending order.
pub open spec fn in_order(values: Seq<i64>) -> Seq<i64> {
    values.sort_by(value_leq())
}

/// The rounded median of values that stand in ascending order: the middle
/// one, or the mean of the two in the middle where the count is even.
pub open spec fn median_of(sorted: Seq<i64>) -> int {
    let n = sorted.len() as int;
    if n % 2 == 0 {
        rounded_mean(sorted[n / 2 - 1], sorted[n / 2])
    } else {
        rounded(sorted[n / 2])
    }
}

/// The summary of a non-empty sequence of values.
pub open spec fn summary_of(values: Seq<i64>) -> Summary {
    let sorted = in_order(values);
    Summary {
        min: rounded(sorted.first()) as i64,
        median: median_of(sorted) as i64,
        max: rounded(sorted.last()) as i64,
    }
}

/// The summaries of all keys of `m`.
pub open spec fn statistics_of(m: Map<Seq<u8>, Seq<i64>>) -> Map<Seq<u8>, Summary> {
    m.map_values(|values: Seq<i64>| summary_of(values))
}

proof fn lemma_value_leq_total()
    ensures
        total_ordering(value_leq()),
{
    let leq = value_leq();
    assert forall|x: i64, y: i64| #[trigger] leq(x, y) <==> x <= y by {}
    assert(vstd::relations::reflexive(leq));
    assert(vstd::relations::antisymmetric(leq));
    assert(vstd::relations::transitive(leq));
    assert(vstd::relations::strongly_connected(leq));
}

/// The values in order are the same values, none lost and none added, and no
/// one of them is greater than a later one.
pub proof fn lemma_in_order(values: Seq<i64>)
    ensures
        non_decreasing(in_order(values)),
        in_order(values).to_multiset() == values.to_multiset(),
        in_order(values).len() == values.len(),
        forall|i: int| 0 <= i < values.len() ==> in_order(values).contains(#[trigger] values[i]),
        forall|i: int| 0 <= i < values.len() ==> values.contains(#[trigger] in_order(values)[i]),
{
    broadcast use vstd::seq_lib::group_to_multiset_ensures;

    lemma_value_leq_total();
    values.lemma_sort_by_ensures(value_leq());
    let sorted = in_order(values);
    assert(non_decreasing(sorted)) by {
        assert forall|i: int, j: int| 0 <= i < j < sorted.len() implies sorted[i] <= sorted[j] by {
            assert(value_leq()(sorted[i], sorted[j]));
        }
    }
    assert(sorted.to_multiset().len() == values.to_multiset().len());
    assert forall|i: int| 0 <= i < values.len() implies sorted.contains(#[trigger] values[i]) by {
        assert(values.contains(values[i]));
        assert(values.to_multiset().count(values[i]) > 0);
    }
    assert forall|i: int| 0 <= i < values.len() implies values.contains(#[trigger] sorted[i]) by {
        assert(sorted.contains(sorted[i]));
        assert(sorted.to_multiset().count(sorted[i]) > 0);
    }
}

/// The first of the values in order is the least of them and the last the
/// greatest, and both are among them.
pub proof fn lemma_extremes(values: Seq<i64>)
    requires
        values.len() > 0,
    ensures
        values.contains(in_order(values).first()),
        values.contains(in_order(values).last()),
        forall|i: int|
            0 <= i < values.len() ==> in_order(values).first() <= #[trigger] values[i] <= in_order(
                values,
            ).last(),
{
    lemma_in_order(values);
    let sorted = in_order(values);
    assert(values.contains(sorted[0]));
    assert(values.contains(sorted[sorted.len() - 1]));
    assert forall|i: int| 0 <= i < values.len() implies sorted.first() <= #[trigger] values[i]
        <= sorted.last() by {
        assert(sorted.contains(values[i]));
        let j = choose|j: int| 0 <= j < sorted.len() && sorted[j] == values[i];
        if 0 < j {
            assert(sorted[0] <= sorted[j]);
        }
        if j < sorted.len() - 1 {
            assert(sorted[j] <= sorted[sorted.len() - 1]);
        }
    }
}

/// A sequence that holds the same values and does not decrease is the values
/// in order.
pub proof fn lemma_in_order_unique(values: Seq<i64>, sorted: Seq<i64>)
    requires
        non_decreasing(sorted),
        sorted.to_multiset() == values.to_multiset(),
    ensures
        sorted == in_order(values),
{
    lemma_value_leq_total();
    values.lemma_sort_by_ensures(value_leq());
    assert(sorted_by(sorted, value_leq()));
    lemma_sorted_unique(sorted, in_order(values), value_leq());
}

/// `<[i64]>::sort`: puts the values in ascending order. The contract says
/// what the documentation of the standard library does: afterwards the vector
/// holds the same values as before, each as often as before, and none of them
/// is greater than a later one.
#[verifier::external_body]
fn sort_values(values: &mut Vec<i64>)
    ensures
        final(values)@.to_multiset() == old(values)@.to_multiset(),
        non_decreasing(final(values)@),
{
    values.sort();
}

/// Rounds `num / den` to the nearest whole number, ties away from zero.
fn round_to_whole(num: i128, den: i128) -> (r: i64)
    requires
        -0x1_0000_0000_0000_0000 <= num <= 0x1_0000_0000_0000_0000,
        SCALE <= den <= 2 * SCALE,
    ensures
        r == round_ratio(num as int, den as int),
{
    let size: u128 = if num >= 0 {
        num as u128
    } else {
        (-num) as u128
    };
    let twice: u128 = 2 * (den as u128);
    let q: u128 = (2 * size + (den as u128)) / twice;
    assert(q <= 40_000) by (nonlinear_arith)
        requires
            q == (2 * size + den) / (twice as int),
            twice == 2 * den,
            size <= 0x1_0000_0000_0000_0000,
            1_000_000_000_000_000 <= den <= 2_000_000_000_000_000,
    ;
    if num >= 0 {
        q as i64
    } else {
        -(q as i64)
    }
}

/// Summarises values that stand in ascending order.
fn summarize_sorted(sorted: &Vec<i64>) -> (summary: Summary)
    requires
        sorted.len() > 0,
    ensures
        summary.min == rounded(sorted@.first()),
        summary.median == median_of(sorted@),
        summary.max == rounded(sorted@.last()),
{
    let n = sorted.len();
    let min = round_to_whole(sorted[0] as i128, SCALE as i128);
    let max = round_to_whole(sorted[n - 1] as i128, SCALE as i128);
    let median = if n % 2 == 0 {
        round_to_whole(sorted[n / 2 - 1] as i128 + sorted[n / 2] as i128, 2 * (SCALE as i128))
    } else {
        round_to_whole(sorted[n / 2] as i128, SCALE as i128)
    };
    Summary { min, median, max }
}

/// Summarises a non-empty sequence of values.
pub fn summarize(values: &[i64]) -> (summary: Summary)
    requires
        values.len() > 0,
    ensures
        summary == summary_of(values@),
{
    let mut sorted = slice_to_vec(values);
    sort_values(&mut sorted);
    proof {
        lemma_in_order_unique(values@, sorted@);
        lemma_in_order(values@);
    }
    summarize_sorted(&sorted)
}

/// A mapping from key to summary. The keys are held in ascending
/// lexicographic order, each one once.
pub struct Statistics {
    keys: Vec<Vec<u8>>,
    summaries: Vec<Summary>,
}

impl View for Statistics {
    type V = Map<Seq<u8>, Summary>;

    closed spec fn view(&self) -> Map<Seq<u8>, Summary> {
        table_view(key_views(self.keys@), self.summaries@)
    }
}

impl Statistics {
    /// The keys are ascending, and each has its summary.
    pub closed spec fn wf(&self) -> bool {
        &&& self.keys.len() == self.summaries.len()
        &&& ascending(key_views(self.keys@))
    }

    /// The keys in ascending order.
    pub closed spec fn keys(&self) -> Seq<Seq<u8>> {
        key_views(self.keys@)
    }

    /// What well-formedness means for the mapping and the key sequence.
    pub proof fn lemma_wf(&self)
        requires
            self.wf(),
        ensures
            ascending(self.keys()),
            self@.dom().finite(),
            self@.dom().len() == self.keys().len(),
            forall|k: Seq<u8>| self@.contains_key(k) <==> self.keys().contains(k),
            forall|i: int| 0 <= i < self.keys().len() ==> self@.contains_key(#[trigger] self.keys()[i]),
    {
        lemma_table_view(key_views(self.keys@), self.summaries@);
    }

    /// Statistics without keys.
    pub fn new() -> (s: Statistics)
        ensures
            s.wf(),
            s@ == Map::<Seq<u8>, Summary>::empty(),
    {
        let s = Statistics { keys: Vec::new(), summaries: Vec::new() };
        proof {
            assert(s@ =~= Map::<Seq<u8>, Summary>::empty());
        }
        s
    }

    /// The number of keys.
    pub fn len(&self) -> (n: usize)
        requires
            self.wf(),
        ensures
            n == self@.dom().len(),
            n == self.keys().len(),
    {
        proof {
            self.lemma_wf();
        }
        self.keys.len()
    }

    /// The key at index `i` of the ascending order.
    pub fn key_at(&self, i: usize) -> (key: &Vec<u8>)
        requires
            self.wf(),
            i < self.keys().len(),
        ensures
            key@ == self.keys()[i as int],
    {
        &self.keys[i]
    }

    /// The summary of the key at index `i` of the ascending order.
    pub fn summary_at(&self, i: usize) -> (summary: Summary)
        requires
            self.wf(),
            i < self.keys().len(),
        ensures
            summary == self@[self.keys()[i as int]],
    {
        proof {
            lemma_table_view(key_views(self.keys@), self.summaries@);
        }
        self.summaries[i]
    }

    /// The summary of `key`, if it has one.
    pub fn get(&self, key: &[u8]) -> (summary: Option<Summary>)
        requires
            self.wf(),
        ensures
            match summary {
                Some(s) => self@.contains_key(key@) && s == self@[key@],
                None => !self@.contains_key(key@),
            },
    {
        let (found, pos) = find_key(&self.keys, key);
        proof {
            lemma_table_view(key_views(self.keys@), self.summaries@);
        }
        if found {
            assert(key_views(self.keys@)[pos as int] == key@);
            Some(self.summaries[pos])
        } else {
            None
        }
    }

    /// Sets the summary of `key`, in place of the one it had, if any.
    pub fn insert(&mut self, key: &[u8], summary: Summary)
        requires
            old(self).wf(),
        ensures
            final(self).wf(),
            final(self)@ == old(self)@.insert(key@, summary),
    {
        let (found, pos) = find_key(&self.keys, key);
        let ghost ks = key_views(self.keys@);
        let ghost ss = self.summaries@;
        if found {
            proof {
                lemma_table_update(ks, ss, pos as int, summary);
            }
            self.summaries[pos] = summary;
        } else {
            proof {
                lemma_table_insert(ks, ss, pos as int, key@, summary);
            }
            self.keys.insert(pos, slice_to_vec(key));
            self.summaries.insert(pos, summary);
            proof {
                assert(key_views(self.keys@) =~= ks.insert(pos as int, key@));
            }
        }
    }
}

/// Summarises every key of `global`, or fails if there are more than
/// `MAX_KEYS` of them; then no key is summarised.
pub fn calculate_statistics(global: Aggregate) -> (result: Result<Statistics, StatsError>)
    requires
        global.wf(),
    ensures
        match result {
            Ok(stats) => global@.dom().len() <= MAX_KEYS && stats.wf() && stats@ == statistics_of(global@)
                && stats.keys() == global.keys(),
            Err(e) => global@.dom().len() > MAX_KEYS && e == StatsError::CapacityExceeded,
        },
{
    let n = global.len();
    if n > MAX_KEYS {
        return Err(StatsError::CapacityExceeded);
    }
    let ghost gkeys = global.keys();
    let mut stats = Statistics { keys: Vec::new(), summaries: Vec::new() };
    let mut i: usize = 0;
    proof {
        global.lemma_wf();
        assert(key_views(stats.keys@) =~= gkeys.take(0));
    }
    while i < n
        invariant
            i <= n,
            n == gkeys.len(),
            global.wf(),
            gkeys == global.keys(),
            stats.keys.len() == i,
            stats.summaries.len() == i,
            key_views(stats.keys@) == gkeys.take(i as int),
            forall|j: int| 0 <= j < i ==> (#[trigger] stats.summaries[j]) == summary_of(global@[gkeys[j]]),
        decreases n - i,
    {
        let key = global.key_at(i);
        let values = global.values_at(i);
        let summary = summarize(values.as_slice());
        stats.keys.push(slice_to_vec(key.as_slice()));
        stats.summaries.push(summary);
        proof {
            assert(key_views(stats.keys@) =~= gkeys.take(i as int + 1));
        }
        i += 1;
    }
    proof {
        assert(gkeys.take(n as int) =~= gkeys);
        lemma_table_view(gkeys, stats.summaries@);
        let want = statistics_of(global@);
        assert forall|k: Seq<u8>| stats@.contains_key(k) implies stats@[k] == want[k] by {
            let j = choose|j: int| 0 <= j < gkeys.len() && gkeys[j] == k;
            assert(stats@[gkeys[j]] == stats.summaries[j]);
        }
        assert(stats@ =~= want);
    }
    Ok(stats)
}

} // verus!
