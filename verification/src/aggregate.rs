//! The mapping from each key to the values recorded for it, in the order in
//! which they were recorded.

use vstd::prelude::*;
use vstd::slice::slice_to_vec;
use crate::keys::{ascending, find_key, key_views, lemma_table_insert, lemma_table_update, lemma_table_view, table_view};

verus! {

/// The value sequences that a vector of series holds.
pub open spec fn series_views(series: Seq<Vec<i64>>) -> Seq<Seq<i64>> {
    series.map_values(|s: Vec<i64>| s@)
}

/// The values that `m` holds for `key`; none where the key is absent.
pub open spec fn values_of(m: Map<Seq<u8>, Seq<i64>>, key: Seq<u8>) -> Seq<i64> {
    if m.contains_key(key) {
        m[key]
    } else {
        Seq::empty()
    }
}

/// `m` after `values` were appended to the sequence of `key`. Appending
/// nothing changes nothing: no key is ever left with an empty sequence.
pub open spec fn with_values(m: Map<Seq<u8>, Seq<i64>>, key: Seq<u8>, values: Seq<i64>) -> Map<
    Seq<u8>,
    Seq<i64>,
> {
    if values.len() == 0 {
        m
    } else {
        m.insert(key, values_of(m, key) + values)
    }
}

/// `m` after one value was appended to the sequence of `key`.
pub open spec fn with_value(m: Map<Seq<u8>, Seq<i64>>, key: Seq<u8>, value: i64) -> Map<
    Seq<u8>,
    Seq<i64>,
> {
    m.insert(key, values_of(m, key).push(value))
}

/// A mapping from key to a non-empty sequence of values. The keys are held in
/// ascending lexicographic order, each one once.
pub struct Aggregate {
    keys: Vec<Vec<u8>>,
    series: Vec<Vec<i64>>,
}

impl View for Aggregate {
    type V = Map<Seq<u8>, Seq<i64>>;

    closed spec fn view(&self) -> Map<Seq<u8>, Seq<i64>> {
        table_view(key_views(self.keys@), series_views(self.series@))
    }
}

impl Aggregate {
    /// The keys are ascending, each has its series, and no series is empty.
    pub closed spec fn wf(&self) -> bool {
        &&& self.keys.len() == self.series.len()
        &&& ascending(key_views(self.keys@))
        &&& forall|i: int| 0 <= i < self.series.len() ==> (#[trigger] self.series[i]).len() > 0
    }

    /// The keys in ascending order.
    pub closed spec fn keys(&self) -> Seq<Seq<u8>> {
        key_views(self.keys@)
    }

    /// What well-formedness means for the mapping and the key sequence.
    pub proof fn lemma_wf(&self)
        requires
            self.wf(),
        ensures
            ascending(self.keys()),
            self@.dom().finite(),
            self@.dom().len() == self.keys().len(),
            forall|k: Seq<u8>| self@.contains_key(k) <==> self.keys().contains(k),
            forall|i: int| 0 <= i < self.keys().len() ==> self@.contains_key(#[trigger] self.keys()[i]),
            forall|k: Seq<u8>| self@.contains_key(k) ==> (#[trigger] self@[k]).len() > 0,
    {
        let ks = key_views(self.keys@);
        let ss = series_views(self.series@);
        lemma_table_view(ks, ss);
        assert forall|k: Seq<u8>| self@.contains_key(k) implies (#[trigger] self@[k]).len() > 0 by {
            let i = choose|i: int| 0 <= i < ks.len() && ks[i] == k;
            assert(self@[ks[i]] == ss[i]);
            assert(ss[i] == self.series[i]@);
        }
    }

    /// An aggregate without keys.
    pub fn new() -> (a: Aggregate)
        ensures
            a.wf(),
            a@ == Map::<Seq<u8>, Seq<i64>>::empty(),
    {
        let a = Aggregate { keys: Vec::new(), series: Vec::new() };
        proof {
            assert(a@ =~= Map::<Seq<u8>, Seq<i64>>::empty());
        }
        a
    }

    /// The number of distinct keys.
    pub fn len(&self) -> (n: usize)
        requires
            self.wf(),
        ensures
            n == self@.dom().len(),
            n == self.keys().len(),
    {
        proof {
            self.lemma_wf();
        }
        self.keys.len()
    }

    /// The key at index `i` of the ascending order.
    pub fn key_at(&self, i: usize) -> (key: &Vec<u8>)
        requires
            self.wf(),
            i < self.keys().len(),
        ensures
            key@ == self.keys()[i as int],
    {
        &self.keys[i]
    }

    /// The values of the key at index `i` of the ascending order.
    pub fn values_at(&self, i: usize) -> (values: &Vec<i64>)
        requires
            self.wf(),
            i < self.keys().len(),
        ensures
            values@ == self@[self.keys()[i as int]],
            values.len() > 0,
    {
        proof {
            lemma_table_view(key_views(self.keys@), series_views(self.series@));
        }
        &self.series[i]
    }

    /// The values recorded for `key`, if there are any.
    pub fn get(&self, key: &[u8]) -> (values: Option<&Vec<i64>>)
        requires
            self.wf(),
        ensures
            match values {
                Some(v) => self@.contains_key(key@) && v@ == self@[key@] && v.len() > 0,
                None => !self@.contains_key(key@),
            },
    {
        let (found, pos) = find_key(&self.keys, key);
        proof {
            lemma_table_view(key_views(self.keys@), series_views(self.series@));
        }
        if found {
            assert(key_views(self.keys@)[pos as int] == key@);
            Some(&self.series[pos])
        } else {
            None
        }
    }

    /// Appends `value` to the sequence of `key`, which is created if the key
    /// is new.
    pub fn record(&mut self, key: &[u8], value: i64)
        requires
            old(self).wf(),
        ensures
            final(self).wf(),
            final(self)@ == with_value(old(self)@, key@, value),
    {
        let (found, pos) = find_key(&self.keys, key);
        let ghost ks = key_views(self.keys@);
        let ghost ss = series_views(self.series@);
        if found {
            proof {
                lemma_table_view(ks, ss);
                lemma_table_update(ks, ss, pos as int, ss[pos as int].push(value));
            }
            self.series[pos].push(value);
            proof {
                assert(series_views(self.series@) =~= ss.update(pos as int, ss[pos as int].push(value)));
            }
        } else {
            let mut first: Vec<i64> = Vec::new();
            first.push(value);
            proof {
                lemma_table_insert(ks, ss, pos as int, key@, first@);
                assert(values_of(old(self)@, key@).push(value) =~= first@);
            }
            self.keys.insert(pos, slice_to_vec(key));
            self.series.insert(pos, first);
            proof {
                assert(key_views(self.keys@) =~= ks.insert(pos as int, key@));
                assert(series_views(self.series@) =~= ss.insert(pos as int, first@));
            }
        }
    }

    /// Appends `values` to the sequence of `key`, which is created if the key
    /// is new. With no values nothing changes.
    pub fn extend(&mut self, key: &[u8], values: &[i64])
        requires
            old(self).wf(),
        ensures
            final(self).wf(),
            final(self)@ == with_values(old(self)@, key@, values@),
    {
        if values.len() == 0 {
            return ;
        }
        let (found, pos) = find_key(&self.keys, key);
        let ghost ks = key_views(self.keys@);
        let ghost ss = series_views(self.series@);
        if found {
            proof {
                lemma_table_view(ks, ss);
                lemma_table_update(ks, ss, pos as int, ss[pos as int] + values@);
            }
            let mut i: usize = 0;
            while i < values.len()
                invariant
                    i <= values.len(),
                    pos < self.series.len(),
                    self.keys == old(self).keys,
                    self.series.len() == old(self).series.len(),
                    forall|j: int|
                        0 <= j < self.series.len() && j != pos ==> self.series[j] == old(self).series[j],
                    self.series[pos as int]@ == old(self).series[pos as int]@ + values@.take(i as int),
                decreases values.len() - i,
            {
                self.series[pos].push(values[i]);
                i += 1;
                proof {
                    assert(values@.take(i as int) =~= values@.take(i - 1).push(values@[i - 1]));
                }
            }
            proof {
                assert(values@.take(i as int) =~= values@);
                assert(series_views(self.series@) =~= ss.update(pos as int, ss[pos as int] + values@));
            }
        } else {
            let fresh = slice_to_vec(values);
            proof {
                lemma_table_insert(ks, ss, pos as int, key@, fresh@);
                assert(values_of(old(self)@, key@) + values@ =~= fresh@);
            }
            self.keys.insert(pos, slice_to_vec(key));
            self.series.insert(pos, fresh);
            proof {
                assert(key_views(self.keys@) =~= ks.insert(pos as int, key@));
                assert(series_views(self.series@) =~= ss.insert(pos as int, fresh@));
            }
        }
    }
}

} // verus!
