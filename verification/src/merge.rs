//! Merging the partial aggregates of the chunks, in chunk order.

use vstd::prelude::*;
use crate::aggregate::{values_of, Aggregate};
use crate::keys::lemma_ascending_distinct;

verus! {

/// The mappings that a vector of aggregates stands for.
pub open spec fn aggregate_views(parts: Seq<Aggregate>) -> Seq<Map<Seq<u8>, Seq<i64>>> {
    parts.map_values(|a: Aggregate| a@)
}

/// The values of `key` in every part, one part after the other.
pub open spec fn concatenated(parts: Seq<Map<Seq<u8>, Seq<i64>>>, key: Seq<u8>) -> Seq<i64>
    decreases parts.len(),
{
    if parts.len() == 0 {
        Seq::empty()
    } else {
        concatenated(parts.drop_last(), key) + values_of(parts.last(), key)
    }
}

/// Some part holds `key`.
pub open spec fn held_by_some(parts: Seq<Map<Seq<u8>, Seq<i64>>>, key: Seq<u8>) -> bool {
    exists|i: int| 0 <= i < parts.len() && (#[trigger] parts[i]).contains_key(key)
}

/// The merged mapping: every key that some part holds, with the values of all
/// parts for it in the order of the parts.
pub open spec fn merged(parts: Seq<Map<Seq<u8>, Seq<i64>>>) -> Map<Seq<u8>, Seq<i64>> {
    Map::new(|k: Seq<u8>| held_by_some(parts, k), |k: Seq<u8>| concatenated(parts, k))
}

/// `base` after the first `upto` keys of `part` were added to it.
spec fn absorbed_upto(
    base: Map<Seq<u8>, Seq<i64>>,
    part: Map<Seq<u8>, Seq<i64>>,
    keys: Seq<Seq<u8>>,
    upto: int,
) -> Map<Seq<u8>, Seq<i64>> {
    Map::new(
        |k: Seq<u8>| base.contains_key(k) || keys.take(upto).contains(k),
        |k: Seq<u8>|
            if keys.take(upto).contains(k) {
                values_of(base, k) + part[k]
            } else {
                values_of(base, k)
            },
    )
}

/// A key that no part holds has no values.
pub proof fn lemma_concatenated_absent(parts: Seq<Map<Seq<u8>, Seq<i64>>>, key: Seq<u8>)
    requires
        !held_by_some(parts, key),
    ensures
        concatenated(parts, key) == Seq::<i64>::empty(),
    decreases parts.len(),
{
    if parts.len() > 0 {
        let init = parts.drop_last();
        assert(!held_by_some(init, key)) by {
            if held_by_some(init, key) {
                let i = choose|i: int| 0 <= i < init.len() && (#[trigger] init[i]).contains_key(key);
                assert(parts[i].contains_key(key));
            }
        }
        lemma_concatenated_absent(init, key);
        assert(!parts[parts.len() - 1].contains_key(key));
        assert(concatenated(parts, key) =~= Seq::<i64>::empty());
    }
}

/// `base` after all of `part` was added to it.
pub open spec fn absorbed(base: Map<Seq<u8>, Seq<i64>>, part: Map<Seq<u8>, Seq<i64>>) -> Map<
    Seq<u8>,
    Seq<i64>,
> {
    Map::new(
        |k: Seq<u8>| base.contains_key(k) || part.contains_key(k),
        |k: Seq<u8>| values_of(base, k) + values_of(part, k),
    )
}

/// Merging one part more appends its values to those merged before.
pub proof fn lemma_merged_step(parts: Seq<Map<Seq<u8>, Seq<i64>>>)
    requires
        parts.len() > 0,
    ensures
        merged(parts) == absorbed(merged(parts.drop_last()), parts.last()),
{
    let init = parts.drop_last();
    let last = parts.last();
    let left = merged(parts);
    let right = absorbed(merged(init), last);
    assert forall|k: Seq<u8>| left.contains_key(k) <==> right.contains_key(k) by {
        if held_by_some(parts, k) {
            let i = choose|i: int| 0 <= i < parts.len() && (#[trigger] parts[i]).contains_key(k);
            if i < init.len() {
                assert(init[i].contains_key(k));
            }
        }
        if held_by_some(init, k) {
            let i = choose|i: int| 0 <= i < init.len() && (#[trigger] init[i]).contains_key(k);
            assert(parts[i].contains_key(k));
        }
        if last.contains_key(k) {
            assert(parts[parts.len() - 1].contains_key(k));
        }
    }
    assert forall|k: Seq<u8>| left.contains_key(k) implies left[k] == right[k] by {
        if !held_by_some(init, k) {
            lemma_concatenated_absent(init, k);
        }
    }
    assert(left =~= right);
}

/// Merging no parts gives the empty mapping.
pub proof fn lemma_merged_none()
    ensures
        merged(Seq::empty()) == Map::<Seq<u8>, Seq<i64>>::empty(),
{
    assert(merged(Seq::empty()) =~= Map::<Seq<u8>, Seq<i64>>::empty());
}

/// Appends the values of every key of `part` to the values that `global`
/// holds for that key.
pub fn absorb(global: &mut Aggregate, part: &Aggregate)
    requires
        old(global).wf(),
        part.wf(),
    ensures
        final(global).wf(),
        final(global)@ == absorbed(old(global)@, part@),
{
    let n = part.len();
    let ghost base = global@;
    let ghost keys = part.keys();
    proof {
        part.lemma_wf();
        lemma_ascending_distinct(keys);
        assert(keys.take(0) =~= Seq::<Seq<u8>>::empty());
        assert(global@ =~= absorbed_upto(base, part@, keys, 0));
    }
    let mut j: usize = 0;
    while j < n
        invariant
            j <= n,
            n == keys.len(),
            part.wf(),
            keys == part.keys(),
            keys.no_duplicates(),
            forall|k: Seq<u8>| part@.contains_key(k) <==> keys.contains(k),
            global.wf(),
            global@ == absorbed_upto(base, part@, keys, j as int),
        decreases n - j,
    {
        let key = part.key_at(j);
        let values = part.values_at(j);
        global.extend(key.as_slice(), values.as_slice());
        proof {
            let after = absorbed_upto(base, part@, keys, j as int + 1);
            let seen = keys.take(j as int);
            let seen_now = keys.take(j as int + 1);
            assert(seen_now =~= seen.push(keys[j as int]));
            assert(!seen.contains(keys[j as int]));
            assert(seen_now.contains(keys[j as int])) by {
                assert(seen_now[j as int] == keys[j as int]);
            }
            assert forall|k: Seq<u8>| seen_now.contains(k) <==> (seen.contains(k) || k
                == keys[j as int]) by {
                if seen.contains(k) {
                    let a = choose|a: int| 0 <= a < seen.len() && seen[a] == k;
                    assert(seen_now[a] == k);
                }
                if seen_now.contains(k) {
                    let a = choose|a: int| 0 <= a < seen_now.len() && seen_now[a] == k;
                    if a < j {
                        assert(seen[a] == k);
                    }
                }
            }
            assert(global@ =~= after);
        }
        j += 1;
    }
    proof {
        assert(keys.take(n as int) =~= keys);
        assert(global@ =~= absorbed(base, part@));
    }
}

/// Merges the partial aggregates into one. The values of a key stand in the
/// order of the parts, and within a part in the order of that part; no value
/// is dropped and none is added.
pub fn merge_results(results: Vec<Aggregate>) -> (global: Aggregate)
    requires
        forall|i: int| 0 <= i < results.len() ==> (#[trigger] results[i]).wf(),
    ensures
        global.wf(),
        global@ == merged(aggregate_views(results@)),
{
    let ghost parts = aggregate_views(results@);
    let mut global = Aggregate::new();
    let mut i: usize = 0;
    proof {
        lemma_merged_none();
        assert(parts.take(0) =~= Seq::empty());
    }
    while i < results.len()
        invariant
            i <= results.len(),
            parts == aggregate_views(results@),
            forall|j: int| 0 <= j < results.len() ==> (#[trigger] results[j]).wf(),
            global.wf(),
            global@ == merged(parts.take(i as int)),
        decreases results.len() - i,
    {
        absorb(&mut global, &results[i]);
        proof {
            assert(parts.take(i as int + 1).drop_last() =~= parts.take(i as int));
            assert(parts.take(i as int + 1).last() == results[i as int]@);
            lemma_merged_step(parts.take(i as int + 1));
        }
        i += 1;
    }
    proof {
        assert(parts.take(i as int) =~= parts);
    }
    global
}

} // verus!
