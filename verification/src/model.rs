//! The mathematical model of the cache.
//!
//! A cache state is abstracted as a sequence of key/value pairs in recency
//! order: index 0 is the most recently used entry, the last index the least
//! recently used one.  The spec functions here read that sequence (key
//! lookup, key set, associative store) and describe how each operation
//! transforms it.

use vstd::prelude::*;

verus! {

/// The keys of the entries, in recency order.
pub open spec fn key_seq<V>(s: Seq<(u64, V)>) -> Seq<u64> {
    s.map_values(|p: (u64, V)| p.0)
}

/// Some entry carries the key `k`.
pub open spec fn has_key<V>(s: Seq<(u64, V)>, k: u64) -> bool {
    exists|i: int| 0 <= i < s.len() && s[i].0 == k
}

/// The value of the first entry carrying the key `k`.
pub open spec fn value_of<V>(s: Seq<(u64, V)>, k: u64) -> V
    decreases s.len(),
{
    if s.len() == 0 {
        arbitrary()
    } else if s[0].0 == k {
        s[0].1
    } else {
        value_of(s.drop_first(), k)
    }
}

/// The entries with every entry carrying the key `k` removed, order kept.
pub open spec fn drop_key<V>(s: Seq<(u64, V)>, k: u64) -> Seq<(u64, V)>
    decreases s.len(),
{
    if s.len() == 0 {
        s
    } else if s[0].0 == k {
        drop_key(s.drop_first(), k)
    } else {
        seq![s[0]] + drop_key(s.drop_first(), k)
    }
}

/// No two entries carry the same key.
pub open spec fn distinct_keys<V>(s: Seq<(u64, V)>) -> bool {
    forall|i: int, j: int| #![trigger s[i], s[j]]
        0 <= i < j < s.len() ==> s[i].0 != s[j].0
}

/// The set of keys present among the entries.
pub open spec fn key_set<V>(s: Seq<(u64, V)>) -> Set<u64> {
    Set::new(|k: u64| has_key(s, k))
}

/// The associative store the entries describe: each present key mapped to
/// its value.
pub open spec fn store_map<V>(s: Seq<(u64, V)>) -> Map<u64, V> {
    Map::new(|k: u64| has_key(s, k), |k: u64| value_of(s, k))
}

/// How `put` transforms the entries.  An existing key keeps the entry count
/// and moves to the front with its new value; a fresh key is pushed to the
/// front, after the least recently used entry is evicted if the cache is
/// full.  A cache of capacity zero retains nothing.
pub open spec fn put_model<V>(s: Seq<(u64, V)>, cap: int, k: u64, v: V) -> Seq<(u64, V)> {
    if has_key(s, k) {
        seq![(k, v)] + drop_key(s, k)
    } else if cap <= 0 {
        s
    } else if s.len() >= cap {
        seq![(k, v)] + s.drop_last()
    } else {
        seq![(k, v)] + s
    }
}

/// How `get` and `move_to_front` transform the entries: a present key moves
/// to the front, keeping its value; an absent key changes nothing.
pub open spec fn promote_model<V>(s: Seq<(u64, V)>, k: u64) -> Seq<(u64, V)> {
    if has_key(s, k) {
        seq![(k, value_of(s, k))] + drop_key(s, k)
    } else {
        s
    }
}

/// How `move_to_back` transforms the entries: a present key moves to the
/// back, keeping its value; an absent key changes nothing.
pub open spec fn demote_model<V>(s: Seq<(u64, V)>, k: u64) -> Seq<(u64, V)> {
    if has_key(s, k) {
        drop_key(s, k) + seq![(k, value_of(s, k))]
    } else {
        s
    }
}

/// How `remove` transforms the entries: a present key disappears; an absent
/// key changes nothing.
pub open spec fn remove_model<V>(s: Seq<(u64, V)>, k: u64) -> Seq<(u64, V)> {
    drop_key(s, k)
}

/// Dropping a key that is not present changes nothing.
pub proof fn lemma_drop_key_absent<V>(s: Seq<(u64, V)>, k: u64)
    requires
        !has_key(s, k),
    ensures
        drop_key(s, k) == s,
    decreases s.len(),
{
    if s.len() > 0 {
        assert(s[0].0 != k);
        assert forall|i: int| 0 <= i < s.drop_first().len() implies s.drop_first()[i].0 != k by {
            assert(s[i + 1].0 != k);
        }
        lemma_drop_key_absent(s.drop_first(), k);
        assert(seq![s[0]] + s.drop_first() =~= s);
    }
}

/// Dropping a key keeps exactly the other keys.
pub proof fn lemma_drop_key_keys<V>(s: Seq<(u64, V)>, k: u64)
    ensures
        forall|k2: u64| #![trigger has_key(drop_key(s, k), k2)] #![trigger has_key(s, k2)]
            has_key(drop_key(s, k), k2) <==> (has_key(s, k2) && k2 != k),
    decreases s.len(),
{
    if s.len() > 0 {
        let t = s.drop_first();
        lemma_drop_key_keys(t, k);
        assert forall|k2: u64| has_key(t, k2) implies has_key(s, k2) by {
            let i = choose|i: int| 0 <= i < t.len() && t[i].0 == k2;
            assert(s[i + 1].0 == k2);
        }
        if s[0].0 == k {
            assert(drop_key(s, k) == drop_key(t, k));
            assert forall|k2: u64| has_key(s, k2) && k2 != k implies has_key(t, k2) by {
                let i = choose|i: int| 0 <= i < s.len() && s[i].0 == k2;
                assert(i != 0);
                assert(t[i - 1].0 == k2);
            }
            assert forall|k2: u64|
                has_key(drop_key(s, k), k2) <==> (has_key(s, k2) && k2 != k) by {
                assert(has_key(drop_key(t, k), k2) <==> (has_key(t, k2) && k2 != k));
            }
        } else {
            let d = seq![s[0]] + drop_key(t, k);
            assert(drop_key(s, k) == d);
            assert forall|k2: u64| has_key(s, k2) && k2 != k implies has_key(d, k2) by {
                let i = choose|i: int| 0 <= i < s.len() && s[i].0 == k2;
                if i == 0 {
                    assert(d[0] == s[0]);
                    assert(d[0].0 == k2);
                } else {
                    assert(t[i - 1].0 == k2);
                    assert(has_key(t, k2));
                    assert(has_key(drop_key(t, k), k2));
                    let j = choose|j: int| 0 <= j < drop_key(t, k).len() && drop_key(t, k)[j].0 == k2;
                    assert(d[j + 1] == drop_key(t, k)[j]);
                    assert(d[j + 1].0 == k2);
                }
            }
            assert forall|k2: u64| has_key(d, k2) implies has_key(s, k2) && k2 != k by {
                let i = choose|i: int| 0 <= i < d.len() && d[i].0 == k2;
                if i == 0 {
                    assert(d[0] == s[0]);
                    assert(s[0].0 == k2);
                    assert(k2 != k);
                } else {
                    assert(d[i] == drop_key(t, k)[i - 1]);
                    assert(drop_key(t, k)[i - 1].0 == k2);
                    assert(has_key(drop_key(t, k), k2));
                    assert(has_key(t, k2) && k2 != k);
                }
            }
        }
    }
}

/// Dropping the sole entry carrying a key removes exactly that entry.
pub proof fn lemma_drop_key_at<V>(s: Seq<(u64, V)>, k: u64, i: int)
    requires
        0 <= i < s.len(),
        s[i].0 == k,
        forall|j: int| 0 <= j < s.len() && j != i ==> s[j].0 != k,
    ensures
        drop_key(s, k) == s.remove(i),
    decreases i,
{
    let t = s.drop_first();
    if i == 0 {
        assert forall|j: int| 0 <= j < t.len() implies t[j].0 != k by {
            assert(s[j + 1].0 != k);
        }
        assert(!has_key(t, k));
        lemma_drop_key_absent(t, k);
        assert(drop_key(s, k) == t);
        assert(t =~= s.remove(0));
    } else {
        assert(s[0].0 != k);
        assert(t[i - 1].0 == k);
        assert forall|j: int| 0 <= j < t.len() && j != i - 1 implies t[j].0 != k by {
            assert(s[j + 1].0 != k);
        }
        lemma_drop_key_at(t, k, i - 1);
        assert(drop_key(s, k) == seq![s[0]] + t.remove(i - 1));
        assert(seq![s[0]] + t.remove(i - 1) =~= s.remove(i));
    }
}

/// The value of the sole entry carrying a key is the value the key maps to.
pub proof fn lemma_value_of_at<V>(s: Seq<(u64, V)>, k: u64, i: int)
    requires
        0 <= i < s.len(),
        s[i].0 == k,
        forall|j: int| 0 <= j < i ==> s[j].0 != k,
    ensures
        value_of(s, k) == s[i].1,
    decreases i,
{
    if i > 0 {
        let t = s.drop_first();
        assert(t[i - 1].0 == k);
        assert forall|j: int| 0 <= j < i - 1 implies t[j].0 != k by {
            assert(s[j + 1].0 != k);
        }
        lemma_value_of_at(t, k, i - 1);
    }
}

/// Dropping one key leaves every other key's value unchanged.
pub proof fn lemma_drop_key_value<V>(s: Seq<(u64, V)>, k: u64, k2: u64)
    requires
        k2 != k,
        has_key(s, k2),
    ensures
        value_of(drop_key(s, k), k2) == value_of(s, k2),
    decreases s.len(),
{
    let t = s.drop_first();
    lemma_drop_key_keys(t, k);
    if s[0].0 == k {
        assert(drop_key(s, k) == drop_key(t, k));
        assert(has_key(t, k2)) by {
            let i = choose|i: int| 0 <= i < s.len() && s[i].0 == k2;
            assert(t[i - 1].0 == k2);
        }
        lemma_drop_key_value(t, k, k2);
        assert(value_of(s, k2) == value_of(t, k2));
    } else {
        let d = seq![s[0]] + drop_key(t, k);
        assert(drop_key(s, k) == d);
        if s[0].0 == k2 {
            assert(d[0].0 == k2);
            assert(value_of(d, k2) == d[0].1);
            assert(value_of(s, k2) == s[0].1);
        } else {
            assert(has_key(t, k2)) by {
                let i = choose|i: int| 0 <= i < s.len() && s[i].0 == k2;
                assert(i != 0);
                assert(t[i - 1].0 == k2);
            }
            lemma_drop_key_value(t, k, k2);
            assert(d.drop_first() =~= drop_key(t, k));
            assert(value_of(d, k2) == value_of(drop_key(t, k), k2));
            assert(value_of(s, k2) == value_of(t, k2));
        }
    }
}

/// With distinct keys, dropping the key of the entry at index `i` removes
/// exactly that entry, and that entry's value is the key's value.
pub proof fn lemma_drop_key_first<V>(s: Seq<(u64, V)>, k: u64, i: int)
    requires
        distinct_keys(s),
        0 <= i < s.len(),
        s[i].0 == k,
    ensures
        drop_key(s, k) == s.remove(i),
        value_of(s, k) == s[i].1,
{
    assert forall|j: int| 0 <= j < s.len() && j != i implies s[j].0 != k by {
        assert(s[i].0 == k);
    }
    lemma_drop_key_at(s, k, i);
    lemma_value_of_at(s, k, i);
}

/// Putting a fresh key in front of distinct entries keeps them distinct.
pub proof fn lemma_cons_fresh_distinct<V>(s: Seq<(u64, V)>, k: u64, v: V)
    requires
        distinct_keys(s),
        !has_key(s, k),
    ensures
        distinct_keys(seq![(k, v)] + s),
{
    let r = seq![(k, v)] + s;
    assert forall|a: int, b: int| #![trigger r[a], r[b]]
        0 <= a < b < r.len() implies r[a].0 != r[b].0 by {
        if a == 0 {
            assert(r[b] == s[b - 1]);
            assert(s[b - 1].0 != k);
        } else {
            assert(r[a] == s[a - 1]);
            assert(r[b] == s[b - 1]);
        }
    }
}

/// Putting a fresh key behind distinct entries keeps them distinct.
pub proof fn lemma_snoc_fresh_distinct<V>(s: Seq<(u64, V)>, k: u64, v: V)
    requires
        distinct_keys(s),
        !has_key(s, k),
    ensures
        distinct_keys(s + seq![(k, v)]),
{
    let r = s + seq![(k, v)];
    assert forall|a: int, b: int| #![trigger r[a], r[b]]
        0 <= a < b < r.len() implies r[a].0 != r[b].0 by {
        if b == r.len() - 1 {
            assert(r[a] == s[a]);
            assert(s[a].0 != k);
        } else {
            assert(r[a] == s[a]);
            assert(r[b] == s[b]);
        }
    }
}

/// The keys present after an entry is put in front: that entry's key,
/// beside the keys already present.
pub proof fn lemma_has_key_cons<V>(e: (u64, V), s: Seq<(u64, V)>)
    ensures
        forall|x: u64| #![trigger has_key(seq![e] + s, x)]
            has_key(seq![e] + s, x) <==> (e.0 == x || has_key(s, x)),
{
    let r = seq![e] + s;
    assert forall|x: u64| has_key(r, x) implies e.0 == x || has_key(s, x) by {
        let i = choose|i: int| 0 <= i < r.len() && r[i].0 == x;
        if i == 0 {
            assert(r[0] == e);
        } else {
            assert(r[i] == s[i - 1]);
        }
    }
    assert forall|x: u64| e.0 == x || has_key(s, x) implies has_key(r, x) by {
        if e.0 == x {
            assert(r[0] == e);
        } else {
            let i = choose|i: int| 0 <= i < s.len() && s[i].0 == x;
            assert(r[i + 1] == s[i]);
        }
    }
}

/// The values after an entry is put in front: its key maps to its value,
/// every other key to the value it had.
pub proof fn lemma_value_of_cons<V>(e: (u64, V), s: Seq<(u64, V)>)
    ensures
        value_of(seq![e] + s, e.0) == e.1,
        forall|x: u64| x != e.0 ==> value_of(seq![e] + s, x) == value_of(s, x),
{
    let r = seq![e] + s;
    assert(r[0] == e);
    assert forall|x: u64| x != e.0 implies value_of(r, x) == value_of(s, x) by {
        assert(r.drop_first() =~= s);
        assert(value_of(r, x) == value_of(r.drop_first(), x));
    }
}

/// Dropping a key preserves the distinctness of the remaining keys.
pub proof fn lemma_drop_key_distinct<V>(s: Seq<(u64, V)>, k: u64)
    requires
        distinct_keys(s),
    ensures
        distinct_keys(drop_key(s, k)),
{
    if has_key(s, k) {
        let i = choose|i: int| 0 <= i < s.len() && s[i].0 == k;
        assert forall|j: int| 0 <= j < s.len() && j != i implies s[j].0 != k by {
            assert(s[i].0 == k);
        }
        lemma_drop_key_at(s, k, i);
        assert(drop_key(s, k) == s.remove(i));
    } else {
        lemma_drop_key_absent(s, k);
    }
}

} // verus!
