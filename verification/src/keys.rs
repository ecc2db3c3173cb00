//! Byte-string keys: their lexicographic order, and tables held in that order.

use vstd::prelude::*;

verus! {

/// How one key stands to another in lexicographic order.
#[derive(Clone, Copy, Debug, PartialEq, Eq)]
pub enum KeyOrder {
    Less,
    Equal,
    Greater,
}

/// `a` and `b` agree before index `n`, and at `n` either `a` has ended while
/// `b` goes on, or `a` holds the smaller byte.
pub open spec fn precedes_at(a: Seq<u8>, b: Seq<u8>, n: int) -> bool {
    &&& 0 <= n <= a.len()
    &&& n < b.len()
    &&& forall|i: int| 0 <= i < n ==> a[i] == b[i]
    &&& (n < a.len() ==> a[n] < b[n])
}

/// `a` comes strictly before `b` in lexicographic byte order.
pub open spec fn key_less(a: Seq<u8>, b: Seq<u8>) -> bool {
    exists|n: int| precedes_at(a, b, n)
}

/// Every key of `keys` comes strictly before each later one.
pub open spec fn ascending(keys: Seq<Seq<u8>>) -> bool {
    forall|i: int, j: int| 0 <= i < j < keys.len() ==> key_less(#[trigger] keys[i], #[trigger] keys[j])
}

/// The byte sequences that a vector of keys holds.
pub open spec fn key_views(keys: Seq<Vec<u8>>) -> Seq<Seq<u8>> {
    keys.map_values(|k: Vec<u8>| k@)
}

/// The mapping that a table stands for: each key to the slot beside it.
pub open spec fn table_view<T>(keys: Seq<Seq<u8>>, slots: Seq<T>) -> Map<Seq<u8>, T> {
    Map::new(|k: Seq<u8>| keys.contains(k), |k: Seq<u8>| slots[keys.index_of(k)])
}

/// The keys of `keys` in ascending order.
pub open spec fn ascending_keys(keys: Set<Seq<u8>>) -> Seq<Seq<u8>> {
    choose|ks: Seq<Seq<u8>>| ascending(ks) && ks.to_set() == keys
}

/// No key comes before itself.
pub proof fn lemma_key_less_irreflexive(a: Seq<u8>)
    ensures
        !key_less(a, a),
{
    if key_less(a, a) {
        let n = choose|n: int| precedes_at(a, a, n);
        assert(a[n] < a[n]);
    }
}

/// The order is transitive.
pub proof fn lemma_key_less_transitive(a: Seq<u8>, b: Seq<u8>, c: Seq<u8>)
    requires
        key_less(a, b),
        key_less(b, c),
    ensures
        key_less(a, c),
{
    let n1 = choose|n: int| precedes_at(a, b, n);
    let n2 = choose|n: int| precedes_at(b, c, n);
    let n = if n1 <= n2 {
        n1
    } else {
        n2
    };
    assert(precedes_at(a, c, n));
}

/// Of two keys at most one comes before the other.
pub proof fn lemma_key_less_asymmetric(a: Seq<u8>, b: Seq<u8>)
    requires
        key_less(a, b),
    ensures
        !key_less(b, a),
        a != b,
{
    if key_less(b, a) {
        lemma_key_less_transitive(a, b, a);
    }
    lemma_key_less_irreflexive(a);
}

/// An ascending sequence holds no key twice.
pub proof fn lemma_ascending_distinct(keys: Seq<Seq<u8>>)
    requires
        ascending(keys),
    ensures
        keys.no_duplicates(),
        forall|i: int| 0 <= i < keys.len() ==> keys.index_of(#[trigger] keys[i]) == i,
{
    assert forall|i: int, j: int| 0 <= i < keys.len() && 0 <= j < keys.len() && i != j implies keys[i]
        != keys[j] by {
        if i < j {
            lemma_key_less_asymmetric(keys[i], keys[j]);
        } else {
            lemma_key_less_asymmetric(keys[j], keys[i]);
        }
    }
    assert forall|i: int| 0 <= i < keys.len() implies keys.index_of(#[trigger] keys[i]) == i by {
        let j = keys.index_of(keys[i]);
        assert(0 <= j < keys.len() && keys[j] == keys[i]);
    }
}

/// Two ascending sequences that hold the same keys are the same sequence.
pub proof fn lemma_ascending_unique(s: Seq<Seq<u8>>, t: Seq<Seq<u8>>)
    requires
        ascending(s),
        ascending(t),
        forall|k: Seq<u8>| s.contains(k) <==> t.contains(k),
    ensures
        s == t,
    decreases s.len(),
{
    if s.len() == 0 {
        if t.len() > 0 {
            assert(t.contains(t[0]));
            assert(s.contains(t[0]));
        }
        assert(s =~= t);
    } else {
        assert(s.contains(s[0]));
        assert(t.contains(s[0]));
        let j = choose|j: int| 0 <= j < t.len() && t[j] == s[0];
        assert(t.contains(t[0]));
        assert(s.contains(t[0]));
        let i = choose|i: int| 0 <= i < s.len() && s[i] == t[0];
        if j > 0 && i > 0 {
            assert(key_less(t[0], t[j]));
            assert(key_less(s[0], s[i]));
            lemma_key_less_asymmetric(t[0], t[j]);
        }
        if j > 0 && i == 0 {
            lemma_ascending_distinct(t);
        }
        assert(s[0] == t[0]);
        let s1 = s.drop_first();
        let t1 = t.drop_first();
        lemma_ascending_distinct(s);
        lemma_ascending_distinct(t);
        assert forall|k: Seq<u8>| s1.contains(k) <==> t1.contains(k) by {
            if s1.contains(k) {
                let a = choose|a: int| 0 <= a < s1.len() && s1[a] == k;
                assert(s[a + 1] == k);
                assert(s.contains(k));
                let b = choose|b: int| 0 <= b < t.len() && t[b] == k;
                assert(b != 0);
                assert(t1[b - 1] == k);
            }
            if t1.contains(k) {
                let a = choose|a: int| 0 <= a < t1.len() && t1[a] == k;
                assert(t[a + 1] == k);
                assert(t.contains(k));
                let b = choose|b: int| 0 <= b < s.len() && s[b] == k;
                assert(b != 0);
                assert(s1[b - 1] == k);
            }
        }
        assert(ascending(s1)) by {
            assert forall|a: int, b: int| 0 <= a < b < s1.len() implies key_less(
                #[trigger] s1[a],
                #[trigger] s1[b],
            ) by {
                assert(key_less(s[a + 1], s[b + 1]));
            }
        }
        assert(ascending(t1)) by {
            assert forall|a: int, b: int| 0 <= a < b < t1.len() implies key_less(
                #[trigger] t1[a],
                #[trigger] t1[b],
            ) by {
                assert(key_less(t[a + 1], t[b + 1]));
            }
        }
        lemma_ascending_unique(s1, t1);
        assert(s =~= seq![s[0]] + s1);
        assert(t =~= seq![t[0]] + t1);
    }
}

/// An ascending sequence is the ascending order of the keys it holds.
pub proof fn lemma_ascending_keys(ks: Seq<Seq<u8>>)
    requires
        ascending(ks),
    ensures
        ascending_keys(ks.to_set()) == ks,
{
    let other = ascending_keys(ks.to_set());
    assert(ascending(other) && other.to_set() == ks.to_set());
    assert forall|k: Seq<u8>| ks.contains(k) <==> other.contains(k) by {
        assert(ks.to_set().contains(k) <==> ks.contains(k));
        assert(other.to_set().contains(k) <==> other.contains(k));
    }
    lemma_ascending_unique(ks, other);
}

/// In an ascending table each key maps to the slot at its own index, and the
/// keys of the mapping are those of the table, each counted once.
pub proof fn lemma_table_view<T>(keys: Seq<Seq<u8>>, slots: Seq<T>)
    requires
        ascending(keys),
        keys.len() == slots.len(),
    ensures
        forall|i: int|
            0 <= i < keys.len() ==> table_view(keys, slots).contains_key(#[trigger] keys[i])
                && table_view(keys, slots)[keys[i]] == slots[i],
        forall|k: Seq<u8>| table_view(keys, slots).contains_key(k) <==> keys.contains(k),
        table_view(keys, slots).dom() == keys.to_set(),
        table_view(keys, slots).dom().finite(),
        table_view(keys, slots).dom().len() == keys.len(),
{
    lemma_ascending_distinct(keys);
    let m = table_view(keys, slots);
    assert forall|i: int| 0 <= i < keys.len() implies m.contains_key(#[trigger] keys[i]) && m[keys[i]]
        == slots[i] by {
        assert(keys.contains(keys[i]));
    }
    assert(m.dom() =~= keys.to_set());
    keys.unique_seq_to_set();
    vstd::seq_lib::seq_to_set_is_finite(keys);
}

/// A key that lies strictly between its neighbours at `pos` is not in the table.
pub proof fn lemma_gap_absent(keys: Seq<Seq<u8>>, pos: int, key: Seq<u8>)
    requires
        0 <= pos <= keys.len(),
        forall|i: int| 0 <= i < pos ==> key_less(#[trigger] keys[i], key),
        forall|i: int| pos <= i < keys.len() ==> key_less(key, #[trigger] keys[i]),
    ensures
        !keys.contains(key),
{
    if keys.contains(key) {
        let i = choose|i: int| 0 <= i < keys.len() && keys[i] == key;
        lemma_key_less_irreflexive(key);
        if i < pos {
            assert(key_less(keys[i], key));
        } else {
            assert(key_less(key, keys[i]));
        }
    }
}

/// Putting a new key into its gap keeps the table ascending and adds one
/// entry to the mapping.
pub proof fn lemma_table_insert<T>(keys: Seq<Seq<u8>>, slots: Seq<T>, pos: int, key: Seq<u8>, slot: T)
    requires
        ascending(keys),
        keys.len() == slots.len(),
        0 <= pos <= keys.len(),
        forall|i: int| 0 <= i < pos ==> key_less(#[trigger] keys[i], key),
        forall|i: int| pos <= i < keys.len() ==> key_less(key, #[trigger] keys[i]),
    ensures
        ascending(keys.insert(pos, key)),
        !table_view(keys, slots).contains_key(key),
        table_view(keys.insert(pos, key), slots.insert(pos, slot)) == table_view(keys, slots).insert(
            key,
            slot,
        ),
{
    let keys2 = keys.insert(pos, key);
    let slots2 = slots.insert(pos, slot);
    lemma_gap_absent(keys, pos, key);
    assert(ascending(keys2)) by {
        assert forall|i: int, j: int| 0 <= i < j < keys2.len() implies key_less(
            #[trigger] keys2[i],
            #[trigger] keys2[j],
        ) by {
            let oi = if i < pos {
                i
            } else {
                i - 1
            };
            let oj = if j < pos {
                j
            } else {
                j - 1
            };
            if i == pos {
                assert(keys2[j] == keys[oj]);
            } else if j == pos {
                assert(keys2[i] == keys[oi]);
            } else {
                assert(keys2[i] == keys[oi]);
                assert(keys2[j] == keys[oj]);
                assert(key_less(keys[oi], keys[oj]));
            }
        }
    }
    lemma_table_view(keys, slots);
    lemma_table_view(keys2, slots2);
    let before = table_view(keys, slots).insert(key, slot);
    let after = table_view(keys2, slots2);
    assert forall|k: Seq<u8>| before.contains_key(k) <==> after.contains_key(k) by {
        if keys.contains(k) {
            let i = choose|i: int| 0 <= i < keys.len() && keys[i] == k;
            let ni = if i < pos {
                i
            } else {
                i + 1
            };
            assert(keys2[ni] == k);
        }
        if k == key {
            assert(keys2[pos] == k);
        }
        if keys2.contains(k) {
            let i = choose|i: int| 0 <= i < keys2.len() && keys2[i] == k;
            if i != pos {
                let oi = if i < pos {
                    i
                } else {
                    i - 1
                };
                assert(keys[oi] == k);
            }
        }
    }
    assert forall|k: Seq<u8>| before.contains_key(k) implies before[k] == after[k] by {
        if k == key {
            assert(keys2[pos] == k);
            assert(after[keys2[pos]] == slots2[pos]);
        } else {
            let i = choose|i: int| 0 <= i < keys.len() && keys[i] == k;
            let ni = if i < pos {
                i
            } else {
                i + 1
            };
            assert(keys2[ni] == k);
            assert(after[keys2[ni]] == slots2[ni]);
            assert(before[keys[i]] == slots[i]);
        }
    }
    assert(before =~= after);
}

/// Replacing the slot at `pos` replaces the value of the key at `pos`.
pub proof fn lemma_table_update<T>(keys: Seq<Seq<u8>>, slots: Seq<T>, pos: int, slot: T)
    requires
        ascending(keys),
        keys.len() == slots.len(),
        0 <= pos < keys.len(),
    ensures
        table_view(keys, slots.update(pos, slot)) == table_view(keys, slots).insert(keys[pos], slot),
{
    let slots2 = slots.update(pos, slot);
    lemma_table_view(keys, slots);
    lemma_table_view(keys, slots2);
    let before = table_view(keys, slots).insert(keys[pos], slot);
    let after = table_view(keys, slots2);
    assert forall|k: Seq<u8>| before.contains_key(k) implies before[k] == after[k] by {
        let i = choose|i: int| 0 <= i < keys.len() && keys[i] == k;
        assert(after[keys[i]] == slots2[i]);
        assert(table_view(keys, slots)[keys[i]] == slots[i]);
        if i == pos {
        } else {
            lemma_ascending_distinct(keys);
        }
    }
    assert(before =~= after);
}

/// Compares two keys byte by byte.
pub fn compare_keys(a: &[u8], b: &[u8]) -> (order: KeyOrder)
    ensures
        order == KeyOrder::Less <==> key_less(a@, b@),
        order == KeyOrder::Equal <==> a@ == b@,
        order == KeyOrder::Greater <==> key_less(b@, a@),
{
    let mut i: usize = 0;
    while i < a.len() && i < b.len()
        invariant
            i <= a.len(),
            i <= b.len(),
            forall|j: int| 0 <= j < i ==> a@[j] == b@[j],
        decreases a.len() - i,
    {
        if a[i] < b[i] {
            proof {
                assert(precedes_at(a@, b@, i as int));
                lemma_key_less_asymmetric(a@, b@);
            }
            return KeyOrder::Less;
        }
        if a[i] > b[i] {
            proof {
                assert(precedes_at(b@, a@, i as int));
                lemma_key_less_asymmetric(b@, a@);
            }
            return KeyOrder::Greater;
        }
        i += 1;
    }
    if a.len() < b.len() {
        proof {
            assert(precedes_at(a@, b@, i as int));
            lemma_key_less_asymmetric(a@, b@);
        }
        KeyOrder::Less
    } else if a.len() > b.len() {
        proof {
            assert(precedes_at(b@, a@, i as int));
            lemma_key_less_asymmetric(b@, a@);
        }
        KeyOrder::Greater
    } else {
        proof {
            assert(a@ =~= b@);
            lemma_key_less_irreflexive(a@);
        }
        KeyOrder::Equal
    }
}

/// Looks `key` up in an ascending vector of keys by halving. Returns whether
/// it is there, and the index at which it stands or would have to stand.
pub fn find_key(keys: &Vec<Vec<u8>>, key: &[u8]) -> (found: (bool, usize))
    requires
        ascending(key_views(keys@)),
    ensures
        found.1 <= keys.len(),
        found.0 <==> key_views(keys@).contains(key@),
        found.0 ==> found.1 < keys.len() && keys[found.1 as int]@ == key@,
        forall|i: int| 0 <= i < found.1 ==> key_less(#[trigger] key_views(keys@)[i], key@),
        !found.0 ==> forall|i: int|
            found.1 <= i < keys.len() ==> key_less(key@, #[trigger] key_views(keys@)[i]),
{
    let ghost ks = key_views(keys@);
    let mut lo: usize = 0;
    let mut hi: usize = keys.len();
    while lo < hi
        invariant
            ks == key_views(keys@),
            ascending(ks),
            lo <= hi <= keys.len(),
            forall|i: int| 0 <= i < lo ==> key_less(#[trigger] ks[i], key@),
            forall|i: int| hi <= i < keys.len() ==> key_less(key@, #[trigger] ks[i]),
        decreases hi - lo,
    {
        let mid: usize = lo + (hi - lo) / 2;
        assert(ks[mid as int] == keys[mid as int]@);
        match compare_keys(keys[mid].as_slice(), key) {
            KeyOrder::Less => {
                proof {
                    assert forall|i: int| 0 <= i < mid + 1 implies key_less(#[trigger] ks[i], key@) by {
                        if i < mid {
                            assert(key_less(ks[i], ks[mid as int]));
                            lemma_key_less_transitive(ks[i], ks[mid as int], key@);
                        }
                    }
                }
                lo = mid + 1;
            },
            KeyOrder::Greater => {
                proof {
                    assert forall|i: int| mid <= i < keys.len() implies key_less(
                        key@,
                        #[trigger] ks[i],
                    ) by {
                        if mid < i {
                            assert(key_less(ks[mid as int], ks[i]));
                            lemma_key_less_transitive(key@, ks[mid as int], ks[i]);
                        }
                    }
                }
                hi = mid;
            },
            KeyOrder::Equal => {
                proof {
                    assert(ks.contains(key@));
                    assert forall|i: int| 0 <= i < mid implies key_less(#[trigger] ks[i], key@) by {
                        assert(key_less(ks[i], ks[mid as int]));
                    }
                }
                return (true, mid);
            },
        }
    }
    proof {
        lemma_gap_absent(ks, lo as int, key@);
    }
    (false, lo)
}

} // verus!
