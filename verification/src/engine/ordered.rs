//! Entries in key order.

use crate::utils::key::Key;
use vstd::prelude::*;

verus! {

/// The keys rise strictly.
pub open spec fn rising<K: Key, V>(items: Seq<(K::V, V)>) -> bool {
    forall|i: int, j: int| 0 <= i < j < items.len() ==> K::before(#[trigger] items[i].0, #[trigger] items[j].0)
}

/// An entry has this key.
pub open spec fn has_key<A, V>(items: Seq<(A, V)>, k: A) -> bool {
    exists|i: int| 0 <= i < items.len() && #[trigger] items[i].0 == k
}

/// Where an entry with this key is.
pub open spec fn place<A, V>(items: Seq<(A, V)>, k: A) -> int {
    choose|i: int| 0 <= i < items.len() && #[trigger] items[i].0 == k
}

/// The map that holds the entries.
pub open spec fn map_of<A, V>(items: Seq<(A, V)>) -> Map<A, V> {
    Map::new(|k: A| has_key(items, k), |k: A| items[place(items, k)].1)
}

/// The entries with keys from `start` on and before `end`.
pub open spec fn within<K: Key, V>(items: Seq<(K::V, V)>, start: K::V, end: K::V) -> Seq<(K::V, V)>
    decreases items.len(),
{
    if items.len() == 0 {
        Seq::empty()
    } else {
        let rest = within::<K, V>(items.drop_last(), start, end);
        if !K::before(items.last().0, start) && K::before(items.last().0, end) {
            rest.push(items.last())
        } else {
            rest
        }
    }
}

/// The entries in a range stand together.
pub proof fn lemma_within<K: Key, V>(items: Seq<(K::V, V)>, start: K::V, end: K::V, lo: int, hi: int)
    requires
        0 <= lo <= hi <= items.len(),
        forall|i: int| 0 <= i < lo ==> K::before(#[trigger] items[i].0, start),
        forall|i: int| lo <= i < hi ==> !K::before(#[trigger] items[i].0, start) && K::before(items[i].0, end),
        forall|i: int| hi <= i < items.len() ==> !K::before(#[trigger] items[i].0, end),
    ensures
        within::<K, V>(items, start, end) == items.subrange(lo, hi),
    decreases items.len(),
{
    if items.len() == 0 {
        assert(items.subrange(lo, hi) =~= Seq::empty());
    } else {
        let n = items.len() - 1;
        let p = items.drop_last();
        assert(items.last() == items[n]);
        if hi <= n {
            lemma_within::<K, V>(p, start, end, lo, hi);
            assert(items.subrange(lo, hi) =~= p.subrange(lo, hi));
        } else if lo <= n {
            lemma_within::<K, V>(p, start, end, lo, n);
            assert(items.subrange(lo, hi) =~= p.subrange(lo, n).push(items[n]));
        } else {
            lemma_within::<K, V>(p, start, end, n, n);
            assert(items.subrange(lo, hi) =~= p.subrange(n, n));
        }
    }
}

/// The map with entries put one after the other.
pub open spec fn put_all<K: Key, V>(m: Map<K::V, V>, items: Seq<(K, V)>) -> Map<K::V, V>
    decreases items.len(),
{
    if items.len() == 0 {
        m
    } else {
        put_all(m, items.drop_last()).insert(items.last().0@, items.last().1)
    }
}

/// `k` is one of the first `n` keys.
pub open spec fn among<K: Key>(keys: Seq<K>, n: int, k: K::V) -> bool {
    exists|i: int| 0 <= i < n && i < keys.len() && (#[trigger] keys[i])@ == k
}

/// The map without the first `n` keys.
pub open spec fn without<K: Key, V>(m: Map<K::V, V>, keys: Seq<K>, n: int) -> Map<K::V, V> {
    m.restrict(Set::new(|k: K::V| !among(keys, n, k)))
}

/// One more key is gone.
pub proof fn lemma_without<K: Key, V>(m: Map<K::V, V>, keys: Seq<K>, n: int)
    requires
        0 <= n < keys.len(),
    ensures
        without(m, keys, n + 1) == without(m, keys, n).remove(keys[n]@),
{
    assert forall|k: K::V| #[trigger] among(keys, n + 1, k) == (among(keys, n, k) || k == keys[n]@) by {
        if among(keys, n + 1, k) {
            let i = choose|i: int| 0 <= i < n + 1 && i < keys.len() && (#[trigger] keys[i])@ == k;
            if i < n {
                assert(keys[i]@ == k);
            }
        }
        if among(keys, n, k) {
            let i = choose|i: int| 0 <= i < n && i < keys.len() && (#[trigger] keys[i])@ == k;
            assert(keys[i]@ == k);
        }
        if k == keys[n]@ {
            assert(keys[n]@ == k);
        }
    }
    assert(without(m, keys, n + 1) =~= without(m, keys, n).remove(keys[n]@));
}

/// Each entry of a rising sequence is where its key is looked up.
pub proof fn lemma_place<K: Key, V>(items: Seq<(K::V, V)>, i: int)
    requires
        rising::<K, V>(items),
        0 <= i < items.len(),
    ensures
        has_key(items, items[i].0),
        place(items, items[i].0) == i,
        map_of(items).contains_key(items[i].0),
        map_of(items)[items[i].0] == items[i].1,
{
    let k = items[i].0;
    assert(items[i].0 == k);
    let j = place(items, k);
    K::irreflexive(k);
    if j < i {
        assert(K::before(items[j].0, items[i].0));
    } else if i < j {
        assert(K::before(items[i].0, items[j].0));
    }
}

/// A rising sequence has as many entries as its map.
pub proof fn lemma_len<K: Key, V>(items: Seq<(K::V, V)>)
    requires
        rising::<K, V>(items),
    ensures
        map_of(items).dom().finite(),
        map_of(items).len() == items.len(),
    decreases items.len(),
{
    if items.len() == 0 {
        assert(map_of(items).dom() =~= Set::<K::V>::empty());
    } else {
        let n = items.len() - 1;
        let p = items.drop_last();
        assert(rising::<K, V>(p)) by {
            assert forall|i: int, j: int| 0 <= i < j < p.len() implies K::before(
                #[trigger] p[i].0,
                #[trigger] p[j].0,
            ) by {
                assert(K::before(items[i].0, items[j].0));
            }
        }
        lemma_len::<K, V>(p);
        let k = items[n].0;
        assert(!has_key(p, k)) by {
            if has_key(p, k) {
                let i = place(p, k);
                assert(K::before(items[i].0, items[n].0));
                K::irreflexive(k);
            }
        }
        assert(map_of(items).dom() =~= map_of(p).dom().insert(k)) by {
            assert forall|x: K::V| has_key(items, x) == (has_key(p, x) || x == k) by {
                if has_key(items, x) {
                    let i = place(items, x);
                    if i < n {
                        assert(p[i].0 == x);
                    }
                }
                if has_key(p, x) {
                    let i = place(p, x);
                    assert(items[i].0 == x);
                }
                if x == k {
                    assert(items[n].0 == x);
                }
            }
        }
    }
}

/// Inserting an entry with a key that is not there, where it belongs.
pub proof fn lemma_insert<K: Key, V>(items: Seq<(K::V, V)>, c: int, k: K::V, v: V)
    requires
        rising::<K, V>(items),
        0 <= c <= items.len(),
        forall|i: int| 0 <= i < c ==> K::before(#[trigger] items[i].0, k),
        forall|i: int| c <= i < items.len() ==> K::before(k, #[trigger] items[i].0),
    ensures
        rising::<K, V>(items.insert(c, (k, v))),
        map_of(items.insert(c, (k, v))) == map_of(items).insert(k, v),
        !map_of(items).contains_key(k),
{
    let b = items.insert(c, (k, v));
    assert forall|i: int, j: int| 0 <= i < j < b.len() implies K::before(#[trigger] b[i].0, #[trigger] b[j].0) by {
        if i != c && j != c {
            let oi = if i < c {
                i
            } else {
                i - 1
            };
            let oj = if j < c {
                j
            } else {
                j - 1
            };
            assert(K::before(items[oi].0, items[oj].0));
        } else if i == c {
            assert(K::before(k, items[j - 1].0));
        } else {
            assert(K::before(items[i].0, k));
        }
    }
    assert(!has_key(items, k)) by {
        if has_key(items, k) {
            let i = place(items, k);
            K::irreflexive(k);
            assert(items[i].0 == k);
        }
    }
    let m = map_of(b);
    let w = map_of(items).insert(k, v);
    assert forall|x: K::V| #[trigger] m.contains_key(x) implies w.contains_key(x) && m[x] == w[x] by {
        let i = place(b, x);
        lemma_place::<K, V>(b, i);
        if i < c {
            lemma_place::<K, V>(items, i);
        } else if i > c {
            assert(b[i] == items[i - 1]);
            lemma_place::<K, V>(items, i - 1);
        }
        if i != c && x == k {
            lemma_place::<K, V>(b, c);
        }
    }
    assert forall|x: K::V| #[trigger] w.contains_key(x) implies m.contains_key(x) by {
        if x == k {
            lemma_place::<K, V>(b, c);
        } else {
            let i = place(items, x);
            if i < c {
                assert(b[i].0 == x);
            } else {
                assert(b[i + 1].0 == x);
            }
        }
    }
    assert(m =~= w);
}

/// Taking an entry out.
pub proof fn lemma_remove<K: Key, V>(items: Seq<(K::V, V)>, c: int)
    requires
        rising::<K, V>(items),
        0 <= c < items.len(),
    ensures
        rising::<K, V>(items.remove(c)),
        map_of(items.remove(c)) == map_of(items).remove(items[c].0),
        map_of(items).contains_key(items[c].0),
        map_of(items)[items[c].0] == items[c].1,
{
    let b = items.remove(c);
    let k = items[c].0;
    lemma_place::<K, V>(items, c);
    assert forall|i: int, j: int| 0 <= i < j < b.len() implies K::before(#[trigger] b[i].0, #[trigger] b[j].0) by {
        let oi = if i < c {
            i
        } else {
            i + 1
        };
        let oj = if j < c {
            j
        } else {
            j + 1
        };
        assert(K::before(items[oi].0, items[oj].0));
    }
    let m = map_of(b);
    let w = map_of(items).remove(k);
    assert forall|x: K::V| #[trigger] m.contains_key(x) implies w.contains_key(x) && m[x] == w[x] by {
        let i = place(b, x);
        lemma_place::<K, V>(b, i);
        let oi = if i < c {
            i
        } else {
            i + 1
        };
        assert(b[i] == items[oi]);
        lemma_place::<K, V>(items, oi);
    }
    assert forall|x: K::V| #[trigger] w.contains_key(x) implies m.contains_key(x) by {
        let i = place(items, x);
        if i < c {
            assert(b[i].0 == x);
        } else {
            assert(i != c);
            assert(b[i - 1].0 == x);
        }
    }
    assert(m =~= w);
}

/// Giving an entry another value.
pub proof fn lemma_update<K: Key, V>(items: Seq<(K::V, V)>, c: int, v: V)
    requires
        rising::<K, V>(items),
        0 <= c < items.len(),
    ensures
        rising::<K, V>(items.update(c, (items[c].0, v))),
        map_of(items.update(c, (items[c].0, v))) == map_of(items).insert(items[c].0, v),
{
    let k = items[c].0;
    let b = items.update(c, (k, v));
    assert forall|i: int, j: int| 0 <= i < j < b.len() implies K::before(#[trigger] b[i].0, #[trigger] b[j].0) by {
        assert(K::before(items[i].0, items[j].0));
    }
    let m = map_of(b);
    let w = map_of(items).insert(k, v);
    lemma_place::<K, V>(b, c);
    assert forall|x: K::V| #[trigger] m.contains_key(x) implies w.contains_key(x) && m[x] == w[x] by {
        let i = place(b, x);
        lemma_place::<K, V>(b, i);
        lemma_place::<K, V>(items, i);
        if i != c && x == k {
            lemma_place::<K, V>(b, c);
        }
    }
    assert forall|x: K::V| #[trigger] w.contains_key(x) implies m.contains_key(x) by {
        if x != k {
            let i = place(items, x);
            assert(b[i].0 == x);
        }
    }
    assert(m =~= w);
}

/// A key between two neighbours is not there.
pub proof fn lemma_absent<K: Key, V>(items: Seq<(K::V, V)>, c: int, k: K::V)
    requires
        rising::<K, V>(items),
        0 <= c <= items.len(),
        forall|i: int| 0 <= i < c ==> K::before(#[trigger] items[i].0, k),
        forall|i: int| c <= i < items.len() ==> K::before(k, #[trigger] items[i].0),
    ensures
        !map_of(items).contains_key(k),
{
    if has_key(items, k) {
        let i = place(items, k);
        K::irreflexive(k);
        assert(items[i].0 == k);
    }
}

/// Two rising sequences that hold the same map are the same.
pub proof fn lemma_same<K: Key, V>(a: Seq<(K::V, V)>, b: Seq<(K::V, V)>)
    requires
        rising::<K, V>(a),
        rising::<K, V>(b),
        map_of(a) == map_of(b),
    ensures
        a == b,
    decreases a.len(),
{
    lemma_len::<K, V>(a);
    lemma_len::<K, V>(b);
    if a.len() > 0 {
        let n = a.len() - 1;
        lemma_place::<K, V>(a, n);
        lemma_place::<K, V>(b, n);
        let i = place(b, a[n].0);
        let j = place(a, b[n].0);
        assert(has_key(b, a[n].0) && has_key(a, b[n].0));
        assert(a[n].0 == b[n].0) by {
            if i < n && j < n {
                assert(K::before(b[i].0, b[n].0));
                assert(K::before(a[j].0, a[n].0));
                K::transitive(a[n].0, b[n].0, a[n].0);
                K::irreflexive(a[n].0);
            }
        }
        lemma_remove::<K, V>(a, n);
        lemma_remove::<K, V>(b, n);
        assert(a.remove(n) =~= a.drop_last());
        assert(b.remove(n) =~= b.drop_last());
        lemma_same::<K, V>(a.drop_last(), b.drop_last());
        assert(a =~= a.drop_last().push(a[n]));
        assert(b =~= b.drop_last().push(b[n]));
    }
}

/// What a range of entries holds: those of the map with keys in the range.
pub proof fn lemma_within_map<K: Key, V>(items: Seq<(K::V, V)>, start: K::V, end: K::V)
    requires
        rising::<K, V>(items),
    ensures
        rising::<K, V>(within::<K, V>(items, start, end)),
        forall|k: K::V| #[trigger]
            map_of(within::<K, V>(items, start, end)).contains_key(k) <==> map_of(items).contains_key(k) && !K::before(
                k,
                start,
            ) && K::before(k, end),
        forall|k: K::V| #[trigger]
            map_of(within::<K, V>(items, start, end)).contains_key(k) ==> map_of(within::<K, V>(items, start, end))[k]
                == map_of(items)[k],
{
    let w = within::<K, V>(items, start, end);
    lemma_within_items::<K, V>(items, start, end);
    assert forall|k: K::V| #[trigger] map_of(w).contains_key(k) implies map_of(items).contains_key(k) && !K::before(
        k,
        start,
    ) && K::before(k, end) && map_of(w)[k] == map_of(items)[k] by {
        let i = place(w, k);
        lemma_place::<K, V>(w, i);
        assert(comes_from(items, w[i]));
        let j = choose|j: int| 0 <= j < items.len() && #[trigger] items[j] == w[i];
        lemma_place::<K, V>(items, j);
    }
    assert forall|k: K::V| map_of(items).contains_key(k) && !K::before(k, start) && K::before(k, end) implies
        #[trigger] map_of(w).contains_key(k) by {
        let j = place(items, k);
        assert(items[j].0 == k);
        assert(comes_from(w, items[j]));
        let i = choose|i: int| 0 <= i < w.len() && #[trigger] w[i] == items[j];
        assert(w[i].0 == k);
    }
}

/// An entry of the sequence.
pub open spec fn comes_from<A, V>(items: Seq<(A, V)>, e: (A, V)) -> bool {
    exists|j: int| 0 <= j < items.len() && #[trigger] items[j] == e
}

proof fn lemma_within_items<K: Key, V>(items: Seq<(K::V, V)>, start: K::V, end: K::V)
    requires
        rising::<K, V>(items),
    ensures
        rising::<K, V>(within::<K, V>(items, start, end)),
        forall|i: int|
            0 <= i < within::<K, V>(items, start, end).len() ==> comes_from(
                items,
                #[trigger] within::<K, V>(items, start, end)[i],
            ) && !K::before(within::<K, V>(items, start, end)[i].0, start) && K::before(
                within::<K, V>(items, start, end)[i].0,
                end,
            ),
        forall|j: int|
            0 <= j < items.len() && !K::before(#[trigger] items[j].0, start) && K::before(items[j].0, end) ==> comes_from(
                within::<K, V>(items, start, end),
                items[j],
            ),
    decreases items.len(),
{
    if items.len() > 0 {
        let n = items.len() - 1;
        let p = items.drop_last();
        let last = items[n];
        assert(rising::<K, V>(p)) by {
            assert forall|i: int, j: int| 0 <= i < j < p.len() implies K::before(
                #[trigger] p[i].0,
                #[trigger] p[j].0,
            ) by {
                assert(K::before(items[i].0, items[j].0));
            }
        }
        lemma_within_items::<K, V>(p, start, end);
        let u = within::<K, V>(p, start, end);
        let w = within::<K, V>(items, start, end);
        assert forall|i: int| 0 <= i < u.len() implies comes_from(items, #[trigger] u[i]) && K::before(u[i].0, last.0) by {
            assert(comes_from(p, u[i]));
            let j = choose|j: int| 0 <= j < p.len() && #[trigger] p[j] == u[i];
            assert(items[j] == u[i]);
            assert(K::before(items[j].0, items[n].0));
        }
        assert forall|i: int| 0 <= i < w.len() implies comes_from(items, #[trigger] w[i]) && !K::before(w[i].0, start)
            && K::before(w[i].0, end) by {
            if i < u.len() {
                assert(w[i] == u[i]);
            } else {
                assert(w[i] == items[n]);
            }
        }
        assert forall|i: int, j: int| 0 <= i < j < w.len() implies K::before(#[trigger] w[i].0, #[trigger] w[j].0) by {
            assert(w[i] == u[i]);
            if j < u.len() {
                assert(w[j] == u[j]);
                assert(K::before(u[i].0, u[j].0));
            }
        }
        assert forall|j: int|
            0 <= j < items.len() && !K::before(#[trigger] items[j].0, start) && K::before(items[j].0, end) implies comes_from(
            w,
            items[j],
        ) by {
            if j < n {
                assert(p[j].0 == items[j].0);
                assert(comes_from(u, p[j]));
                let i = choose|i: int| 0 <= i < u.len() && #[trigger] u[i] == p[j];
                assert(w[i] == items[j]);
            } else {
                assert(w[u.len() as int] == items[j]);
            }
        }
    }
}

} // verus!
