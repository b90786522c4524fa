//! The laws the cache obeys, each stated and proved over the model.
//!
//! The operations' contracts pin every new state down to a transition of
//! the model (`put_model`, `promote_model`, `demote_model`, `remove_model`);
//! the lemmas here state what those transitions guarantee: the store and
//! the recency order carry the same keys, the capacity is never exceeded,
//! updates evict nothing, promotion is idempotent, and operations on absent
//! keys change nothing.

use crate::lru_cache::LRUCache;
use crate::model::{
    demote_model, distinct_keys, drop_key, has_key, key_seq, key_set, lemma_cons_fresh_distinct,
    lemma_drop_key_absent, lemma_drop_key_distinct, lemma_drop_key_first, lemma_drop_key_keys,
    lemma_drop_key_value, lemma_has_key_cons, lemma_value_of_cons, promote_model, put_model,
    remove_model, store_map, value_of,
};
use vstd::prelude::*;

verus! {

/// In every reachable (well-formed) cache state, the associative store and
/// the recency order carry exactly the same keys, and the recency order
/// holds no key twice.
pub proof fn lemma_store_matches_recency<V>(c: LRUCache<V>)
    requires
        c.wf(),
    ensures
        store_map(c@).dom() == key_set(c@),
        key_set(c@) == key_seq(c@).to_set(),
        key_seq(c@).no_duplicates(),
{
    assert(store_map(c@).dom() =~= key_set(c@));
    assert forall|k: u64| key_set(c@).contains(k) implies key_seq(c@).to_set().contains(k) by {
        let i = choose|i: int| 0 <= i < c@.len() && c@[i].0 == k;
        assert(key_seq(c@)[i] == k);
    }
    assert forall|k: u64| key_seq(c@).to_set().contains(k) implies key_set(c@).contains(k) by {
        let i = choose|i: int| 0 <= i < key_seq(c@).len() && key_seq(c@)[i] == k;
        assert(c@[i].0 == k);
    }
    assert(key_set(c@) =~= key_seq(c@).to_set());
    assert forall|i: int, j: int|
        0 <= i < key_seq(c@).len() && 0 <= j < key_seq(c@).len() && i != j
        implies key_seq(c@)[i] != key_seq(c@)[j] by {
        assert(key_seq(c@)[i] == c@[i].0);
        assert(key_seq(c@)[j] == c@[j].0);
    }
}

/// In every reachable (well-formed) cache state, the number of stored
/// entries is at most the capacity.
pub proof fn lemma_capacity_bound<V>(c: LRUCache<V>)
    requires
        c.wf(),
    ensures
        c@.len() <= c.capacity(),
        store_map(c@).dom().len() <= c.capacity(),
{
    lemma_store_matches_recency(c);
    key_seq(c@).unique_seq_to_set();
}

/// Updating an existing key changes its value and makes it the most
/// recently used, without changing the entry count and without evicting
/// any other key.
pub proof fn lemma_update_law<V>(s: Seq<(u64, V)>, cap: int, k: u64, v: V)
    requires
        distinct_keys(s),
        has_key(s, k),
    ensures
        put_model(s, cap, k, v).len() == s.len(),
        key_seq(put_model(s, cap, k, v))[0] == k,
        store_map(put_model(s, cap, k, v)) == store_map(s).insert(k, v),
        forall|x: u64| has_key(put_model(s, cap, k, v), x) <==> has_key(s, x),
{
    let i = choose|i: int| 0 <= i < s.len() && s[i].0 == k;
    let r = put_model(s, cap, k, v);
    lemma_drop_key_first(s, k, i);
    lemma_drop_key_keys(s, k);
    lemma_has_key_cons((k, v), drop_key(s, k));
    lemma_value_of_cons((k, v), drop_key(s, k));
    assert(key_seq(r)[0] == r[0].0);
    assert forall|x: u64| has_key(r, x) <==> has_key(s, x) by {
        assert(has_key(r, x) <==> (x == k || has_key(drop_key(s, k), x)));
    }
    assert forall|x: u64| store_map(r).dom().contains(x)
        implies store_map(r)[x] == store_map(s).insert(k, v)[x] by {
        if x != k {
            lemma_drop_key_value(s, k, x);
        }
    }
    assert(store_map(r).dom() =~= store_map(s).insert(k, v).dom());
    assert(store_map(r) =~= store_map(s).insert(k, v));
}

/// Moving a key to the front twice in a row leaves the same order as
/// moving it once; the same transition describes a repeated `get`.
pub proof fn lemma_promote_idempotent<V>(s: Seq<(u64, V)>, k: u64)
    ensures
        promote_model(promote_model(s, k), k) == promote_model(s, k),
{
    if has_key(s, k) {
        let d = drop_key(s, k);
        let s1 = seq![(k, value_of(s, k))] + d;
        assert(s1[0].0 == k);
        assert(has_key(s1, k));
        lemma_drop_key_keys(s, k);
        lemma_value_of_cons((k, value_of(s, k)), d);
        assert(s1.drop_first() =~= d);
        assert(drop_key(s1, k) == drop_key(s1.drop_first(), k));
        lemma_drop_key_absent(d, k);
        assert(promote_model(s1, k) == s1);
    }
}

/// The state reached from `s` by a series of `put` calls, first to last:
/// key `ks[i]` with value `vs[i]`.
pub open spec fn put_seq_model<V>(
    s: Seq<(u64, V)>,
    cap: int,
    ks: Seq<u64>,
    vs: Seq<V>,
) -> Seq<(u64, V)>
    decreases ks.len(),
{
    if ks.len() == 0 {
        s
    } else {
        put_seq_model(put_model(s, cap, ks[0], vs[0]), cap, ks.skip(1), vs.skip(1))
    }
}

/// A series of `put` calls is the series without its last call, followed
/// by that call.
proof fn lemma_put_seq_snoc<V>(s: Seq<(u64, V)>, cap: int, ks: Seq<u64>, vs: Seq<V>)
    requires
        ks.len() == vs.len(),
        ks.len() > 0,
    ensures
        put_seq_model(s, cap, ks, vs) == put_model(
            put_seq_model(s, cap, ks.drop_last(), vs.drop_last()),
            cap,
            ks.last(),
            vs.last(),
        ),
    decreases ks.len(),
{
    let s1 = put_model(s, cap, ks[0], vs[0]);
    assert(put_seq_model(s, cap, ks, vs) == put_seq_model(s1, cap, ks.skip(1), vs.skip(1)));
    if ks.len() == 1 {
        assert(ks.skip(1).len() == 0);
        assert(put_seq_model(s1, cap, ks.skip(1), vs.skip(1)) == s1);
        assert(ks.drop_last().len() == 0);
        assert(vs.drop_last().len() == 0);
        assert(put_seq_model(s, cap, ks.drop_last(), vs.drop_last()) == s);
        assert(ks.last() == ks[0]);
        assert(vs.last() == vs[0]);
    } else {
        lemma_put_seq_snoc(s1, cap, ks.skip(1), vs.skip(1));
        assert(ks.skip(1).drop_last() =~= ks.drop_last().skip(1));
        assert(vs.skip(1).drop_last() =~= vs.drop_last().skip(1));
        assert(ks.skip(1).last() == ks.last());
        assert(vs.skip(1).last() == vs.last());
        assert(ks.drop_last()[0] == ks[0]);
        assert(vs.drop_last()[0] == vs[0]);
        assert(put_seq_model(s, cap, ks.drop_last(), vs.drop_last()) == put_seq_model(
            s1,
            cap,
            ks.drop_last().skip(1),
            vs.drop_last().skip(1),
        ));
    }
}

/// Filling a cache that has room for all of them with fresh, pairwise
/// distinct keys retains every one of them, in reverse insertion order in
/// front of what was there.
proof fn lemma_fill_fresh<V>(s: Seq<(u64, V)>, cap: int, ks: Seq<u64>, vs: Seq<V>)
    requires
        ks.len() == vs.len(),
        ks.no_duplicates(),
        forall|i: int| 0 <= i < ks.len() ==> !has_key(s, ks[i]),
        distinct_keys(s),
        s.len() + ks.len() <= cap,
    ensures
        ({
            let r = put_seq_model(s, cap, ks, vs);
            &&& key_seq(r) == ks.reverse() + key_seq(s)
            &&& distinct_keys(r)
            &&& r.len() == s.len() + ks.len()
        }),
    decreases ks.len(),
{
    let r = put_seq_model(s, cap, ks, vs);
    if ks.len() == 0 {
        assert(ks.reverse() + key_seq(s) =~= key_seq(s));
    } else {
        let s1 = put_model(s, cap, ks[0], vs[0]);
        assert(!has_key(s, ks[0]));
        assert(s1 == seq![(ks[0], vs[0])] + s);
        lemma_cons_fresh_distinct(s, ks[0], vs[0]);
        lemma_has_key_cons((ks[0], vs[0]), s);
        assert forall|i: int, j: int|
            0 <= i < ks.skip(1).len() && 0 <= j < ks.skip(1).len() && i != j
            implies ks.skip(1)[i] != ks.skip(1)[j] by {
            assert(ks.skip(1)[i] == ks[i + 1]);
            assert(ks.skip(1)[j] == ks[j + 1]);
        }
        assert forall|i: int| 0 <= i < ks.skip(1).len() implies !has_key(s1, ks.skip(1)[i]) by {
            assert(ks.skip(1)[i] == ks[i + 1]);
            assert(!has_key(s, ks[i + 1]));
            assert(ks[i + 1] != ks[0]);
        }
        lemma_fill_fresh(s1, cap, ks.skip(1), vs.skip(1));
        assert(key_seq(s1) =~= seq![ks[0]] + key_seq(s)) by {
            assert forall|m: int| 0 <= m < s1.len() implies key_seq(s1)[m] == (seq![ks[0]]
                + key_seq(s))[m] by {
                if m > 0 {
                    assert(s1[m] == s[m - 1]);
                }
            }
        }
        assert(key_seq(r) == ks.skip(1).reverse() + (seq![ks[0]] + key_seq(s)));
        assert(ks.skip(1).reverse() + (seq![ks[0]] + key_seq(s)) =~= ks.reverse() + key_seq(s)) by {
            assert forall|m: int| 0 <= m < ks.len() + s.len() implies (ks.skip(1).reverse() + (
            seq![ks[0]] + key_seq(s)))[m] == (ks.reverse() + key_seq(s))[m] by {
                if m < ks.len() - 1 {
                    assert(ks.skip(1).reverse()[m] == ks.skip(1)[ks.len() - 2 - m]);
                    assert(ks.skip(1)[ks.len() - 2 - m] == ks[ks.len() - 1 - m]);
                    assert(ks.reverse()[m] == ks[ks.len() - 1 - m]);
                } else if m == ks.len() - 1 {
                    assert(ks.reverse()[m] == ks[0]);
                }
            }
        }
    }
}

/// The capacity law: inserting `capacity + 1` pairwise distinct keys into
/// an empty cache, in order, leaves exactly the most recent `capacity`
/// keys present, in reverse insertion order; the first-inserted key has
/// been evicted.
pub proof fn lemma_capacity_law<V>(cap: int, ks: Seq<u64>, vs: Seq<V>)
    requires
        1 <= cap,
        ks.no_duplicates(),
        ks.len() == cap + 1,
        vs.len() == ks.len(),
    ensures
        ({
            let r = put_seq_model(Seq::<(u64, V)>::empty(), cap, ks, vs);
            &&& key_seq(r) == ks.skip(1).reverse()
            &&& !has_key(r, ks[0])
            &&& forall|i: int| 1 <= i < ks.len() ==> has_key(r, ks[i])
        }),
{
    let e = Seq::<(u64, V)>::empty();
    let ks0 = ks.drop_last();
    let vs0 = vs.drop_last();
    let r = put_seq_model(e, cap, ks, vs);
    assert forall|i: int, j: int| 0 <= i < ks0.len() && 0 <= j < ks0.len() && i != j
        implies ks0[i] != ks0[j] by {
        assert(ks0[i] == ks[i]);
        assert(ks0[j] == ks[j]);
    }
    lemma_fill_fresh(e, cap, ks0, vs0);
    let f = put_seq_model(e, cap, ks0, vs0);
    assert(key_seq(f) =~= ks0.reverse());
    lemma_put_seq_snoc(e, cap, ks, vs);
    assert(f.len() == cap);
    assert forall|m: int| 0 <= m < f.len() implies f[m].0 != ks.last() by {
        assert(key_seq(f)[m] == f[m].0);
        assert(ks0.reverse()[m] == ks0[cap - 1 - m]);
        assert(ks0[cap - 1 - m] == ks[cap - 1 - m]);
        assert(ks[cap - 1 - m] != ks[cap]);
    }
    assert(!has_key(f, ks.last()));
    assert(r == seq![(ks.last(), vs.last())] + f.drop_last());
    assert(key_seq(r) =~= ks.skip(1).reverse()) by {
        assert forall|m: int| 0 <= m < cap implies key_seq(r)[m] == ks.skip(1).reverse()[m] by {
            assert(ks.skip(1).reverse()[m] == ks.skip(1)[cap - 1 - m]);
            assert(ks.skip(1)[cap - 1 - m] == ks[cap - m]);
            if m == 0 {
                assert(r[0] == (ks.last(), vs.last()));
            } else {
                assert(r[m] == f.drop_last()[m - 1]);
                assert(f.drop_last()[m - 1] == f[m - 1]);
                assert(key_seq(f)[m - 1] == f[m - 1].0);
                assert(ks0.reverse()[m - 1] == ks0[cap - m]);
                assert(ks0[cap - m] == ks[cap - m]);
            }
        }
    }
    assert forall|m: int| 0 <= m < r.len() implies r[m].0 != ks[0] by {
        assert(key_seq(r)[m] == r[m].0);
        assert(key_seq(r)[m] == ks[cap - m]);
        assert(cap - m >= 1);
        assert(ks[cap - m] != ks[0]);
    }
    assert(!has_key(r, ks[0]));
    assert forall|i: int| 1 <= i < ks.len() implies has_key(r, ks[i]) by {
        let m = cap - i;
        assert(key_seq(r)[m] == ks[cap - m]);
        assert(r[m].0 == ks[i]);
    }
}

/// The LRU law: with capacity `N >= 2`, filling an empty cache with the
/// distinct keys `ks[0] .. ks[N-1]`, then reading `ks[0]`, then inserting
/// the fresh key `ks[N]`, evicts `ks[1]` — the least recently used key —
/// and keeps the key that was read.
pub proof fn lemma_lru_law<V>(cap: int, ks: Seq<u64>, vs: Seq<V>, v_new: V)
    requires
        2 <= cap,
        ks.no_duplicates(),
        ks.len() == cap + 1,
        vs.len() == cap,
    ensures
        ({
            let filled = put_seq_model(Seq::<(u64, V)>::empty(), cap, ks.drop_last(), vs);
            let read = promote_model(filled, ks[0]);
            let r = put_model(read, cap, ks.last(), v_new);
            &&& has_key(r, ks[0])
            &&& !has_key(r, ks[1])
            &&& has_key(r, ks.last())
            &&& forall|i: int| 2 <= i < cap ==> has_key(r, ks[i])
        }),
{
    let e = Seq::<(u64, V)>::empty();
    let ks0 = ks.drop_last();
    let filled = put_seq_model(e, cap, ks0, vs);
    let read = promote_model(filled, ks[0]);
    let r = put_model(read, cap, ks.last(), v_new);
    assert forall|i: int, j: int| 0 <= i < ks0.len() && 0 <= j < ks0.len() && i != j
        implies ks0[i] != ks0[j] by {
        assert(ks0[i] == ks[i]);
        assert(ks0[j] == ks[j]);
    }
    lemma_fill_fresh(e, cap, ks0, vs);
    assert(key_seq(filled) =~= ks0.reverse());
    assert(filled.len() == cap);
    assert forall|m: int| 0 <= m < cap implies filled[m].0 == ks[cap - 1 - m] by {
        assert(key_seq(filled)[m] == filled[m].0);
        assert(ks0.reverse()[m] == ks0[cap - 1 - m]);
        assert(ks0[cap - 1 - m] == ks[cap - 1 - m]);
    }
    // reading ks[0] promotes the entry at the back
    assert(filled[cap - 1].0 == ks[0]);
    assert(has_key(filled, ks[0]));
    lemma_drop_key_first(filled, ks[0], cap - 1);
    lemma_drop_key_keys(filled, ks[0]);
    lemma_drop_key_distinct(filled, ks[0]);
    lemma_cons_fresh_distinct(filled.remove(cap - 1), ks[0], value_of(filled, ks[0]));
    assert(read == seq![(ks[0], value_of(filled, ks[0]))] + filled.remove(cap - 1));
    assert(read.len() == cap);
    assert forall|m: int| 1 <= m < cap implies read[m].0 == ks[cap - m] by {
        assert(read[m] == filled.remove(cap - 1)[m - 1]);
        assert(filled.remove(cap - 1)[m - 1] == filled[m - 1]);
    }
    // the new key is fresh, so the entry at the back -- ks[1] -- is evicted
    assert forall|m: int| 0 <= m < cap implies read[m].0 != ks.last() by {
        if m == 0 {
            assert(read[0].0 == ks[0]);
            assert(ks[0] != ks[cap]);
        } else {
            assert(read[m].0 == ks[cap - m]);
            assert(ks[cap - m] != ks[cap]);
        }
    }
    assert(!has_key(read, ks.last()));
    assert(r == seq![(ks.last(), v_new)] + read.drop_last());
    assert(read.drop_last()[0].0 == ks[0]);
    assert(has_key(r, ks[0])) by {
        assert(r[1] == read.drop_last()[0]);
    }
    assert(has_key(r, ks.last())) by {
        assert(r[0].0 == ks.last());
    }
    assert forall|i: int| 2 <= i < cap implies has_key(r, ks[i]) by {
        let m = cap + 1 - i;
        assert(2 <= m < cap);
        assert(r[m] == read.drop_last()[m - 1]);
        assert(read.drop_last()[m - 1] == read[m - 1]);
        assert(read[m - 1].0 == ks[cap - (m - 1)]);
        assert(cap - (m - 1) == i);
    }
    assert forall|m: int| 0 <= m < r.len() implies r[m].0 != ks[1] by {
        if m == 0 {
            assert(r[0].0 == ks[cap]);
            assert(ks[cap] != ks[1]);
        } else if m == 1 {
            assert(r[1].0 == ks[0]);
            assert(ks[0] != ks[1]);
        } else {
            assert(r[m] == read[m - 1]);
            assert(read[m - 1].0 == ks[cap - m + 1]);
            assert(2 <= cap - m + 1 <= cap - 1);
            assert(ks[cap - m + 1] != ks[1]);
        }
    }
    assert(!has_key(r, ks[1]));
}

/// An operation on a key that is not in the cache mutates nothing: lookup,
/// removal and both explicit reorderings leave the state exactly as it was.
pub proof fn lemma_absent_is_no_op<V>(s: Seq<(u64, V)>, k: u64)
    requires
        !has_key(s, k),
    ensures
        promote_model(s, k) == s,
        demote_model(s, k) == s,
        remove_model(s, k) == s,
{
    lemma_drop_key_absent(s, k);
}

} // verus!
