//! What a store of byte strings holds, and sequences of its entries.

use crate::utils::key::Key;
use crate::utils::lex;
use crate::utils::vecs;
use vstd::prelude::*;

verus! {

/// Two maps have the same under a key.
pub open spec fn agree_at(a: Map<Seq<u8>, Seq<u8>>, b: Map<Seq<u8>, Seq<u8>>, k: Seq<u8>) -> bool {
    a.contains_key(k) == b.contains_key(k) && (a.contains_key(k) ==> a[k] == b[k])
}

/// The keys of entries rise strictly.
pub open spec fn ascending(items: Seq<(Vec<u8>, Vec<u8>)>) -> bool {
    forall|i: int, j: int| 0 <= i < j < items.len() ==> lex::lt(#[trigger] items[i].0@, #[trigger] items[j].0@)
}

/// The keys of entries do not fall.
pub open spec fn nondecreasing(items: Seq<(Vec<u8>, Vec<u8>)>) -> bool {
    forall|i: int, j: int| 0 <= i < j < items.len() ==> lex::le(#[trigger] items[i].0@, #[trigger] items[j].0@)
}

/// Whether the keys of entries rise strictly.
pub fn is_ascending(items: &Vec<(Vec<u8>, Vec<u8>)>) -> (r: bool)
    ensures
        r == ascending(items@),
{
    let mut i: usize = 1;
    proof {
        lex::order_laws();
    }
    while i < items.len()
        invariant
            1 <= i,
            forall|a: int, b: int|
                0 <= a < b < i && b < items@.len() ==> lex::lt(#[trigger] items@[a].0@, #[trigger] items@[b].0@),
        decreases items@.len() - i,
    {
        match lex::compare_bytes(items[i - 1].0.as_slice(), items[i].0.as_slice()) {
            lex::Order::Less => {},
            _ => {
                assert(!lex::lt(items@[i - 1].0@, items@[i as int].0@)) by {
                    lex::order_laws();
                }
                return false;
            },
        }
        proof {
            lex::order_laws();
            assert forall|a: int, b: int| 0 <= a < b < i + 1 && b < items@.len() implies lex::lt(
                #[trigger] items@[a].0@,
                #[trigger] items@[b].0@,
            ) by {
                if b == i && a < i - 1 {
                    assert(lex::lt(items@[a].0@, items@[i - 1].0@));
                }
            }
        }
        i = i + 1;
    }
    true
}

/// The keys of entries fall strictly.
pub open spec fn descending(items: Seq<(Vec<u8>, Vec<u8>)>) -> bool {
    forall|i: int, j: int| 0 <= i < j < items.len() ==> lex::lt(#[trigger] items[j].0@, #[trigger] items[i].0@)
}

/// The map that holds the given entries, the last of equal keys.
pub open spec fn map_of(items: Seq<(Vec<u8>, Vec<u8>)>) -> Map<Seq<u8>, Seq<u8>>
    decreases items.len(),
{
    if items.len() == 0 {
        Map::empty()
    } else {
        map_of(items.drop_last()).insert(items.last().0@, items.last().1@)
    }
}

/// The part of the map with keys from `start` on and before `end`.
pub open spec fn between(
    m: Map<Seq<u8>, Seq<u8>>,
    start: Seq<u8>,
    end: Option<Seq<u8>>,
) -> Map<Seq<u8>, Seq<u8>> {
    m.restrict(
        Set::new(|k: Seq<u8>| !lex::lt(k, start) && (end is Some ==> lex::lt(k, end->0))),
    )
}

/// `k` is one of the first `n` keys.
pub open spec fn among(keys: Seq<Vec<u8>>, n: int, k: Seq<u8>) -> bool {
    exists|i: int| 0 <= i < n && i < keys.len() && #[trigger] keys[i]@ == k
}

/// The keys do not fall.
pub open spec fn rising(keys: Seq<Vec<u8>>) -> bool {
    forall|i: int, j: int| 0 <= i < j < keys.len() ==> lex::le(#[trigger] keys[i]@, #[trigger] keys[j]@)
}

/// `v` is what the map has under `key`.
pub open spec fn holds(m: Map<Seq<u8>, Seq<u8>>, key: Seq<u8>, v: Option<Vec<u8>>) -> bool {
    match v {
        Some(x) => m.contains_key(key) && x@ == m[key],
        None => !m.contains_key(key),
    }
}

/// The map with entries put one after the other.
pub open spec fn put_all(m: Map<Seq<u8>, Seq<u8>>, items: Seq<(Vec<u8>, Vec<u8>)>) -> Map<Seq<u8>, Seq<u8>>
    decreases items.len(),
{
    if items.len() == 0 {
        m
    } else {
        put_all(m, items.drop_last()).insert(items.last().0@, items.last().1@)
    }
}

/// The map without the first `n` keys.
pub open spec fn without(m: Map<Seq<u8>, Seq<u8>>, keys: Seq<Vec<u8>>, n: int) -> Map<Seq<u8>, Seq<u8>> {
    m.restrict(Set::new(|k: Seq<u8>| !among(keys, n, k)))
}

pub proof fn lemma_among_next(keys: Seq<Vec<u8>>, n: int)
    requires
        0 <= n < keys.len(),
    ensures
        forall|k: Seq<u8>| #[trigger] among(keys, n + 1, k) <==> among(keys, n, k) || k == keys[n]@,
{
    assert forall|k: Seq<u8>| among(keys, n, k) || k == keys[n]@ implies #[trigger] among(keys, n + 1, k) by {
        if k == keys[n]@ {
            assert(keys[n]@ == k);
        } else {
            let i = choose|i: int| 0 <= i < n && i < keys.len() && #[trigger] keys[i]@ == k;
            assert(keys[i]@ == k);
        }
    }
    assert forall|k: Seq<u8>| #[trigger] among(keys, n + 1, k) implies among(keys, n, k) || k == keys[n]@ by {
        let i = choose|i: int| 0 <= i < n + 1 && i < keys.len() && #[trigger] keys[i]@ == k;
        if i < n {
            assert(keys[i]@ == k);
        }
    }
}

/// Each key of the map once.
pub open spec fn lists_keys(m: Map<Seq<u8>, Seq<u8>>, keys: Seq<Vec<u8>>) -> bool {
    &&& forall|i: int, j: int| 0 <= i < j < keys.len() ==> #[trigger] keys[i]@ != #[trigger] keys[j]@
    &&& forall|i: int| 0 <= i < keys.len() ==> m.contains_key(#[trigger] keys[i]@)
    &&& forall|k: Seq<u8>| #[trigger] m.contains_key(k) ==> among(keys, keys.len() as int, k)
}

/// Each entry of the map once.
pub open spec fn lists_entries(m: Map<Seq<u8>, Seq<u8>>, items: Seq<(Vec<u8>, Vec<u8>)>) -> bool {
    &&& forall|i: int, j: int| 0 <= i < j < items.len() ==> #[trigger] items[i].0@ != #[trigger] items[j].0@
    &&& map_of(items) == m
}

/// `values` are those of the keys, in the same order.
pub open spec fn values_under(m: Map<Seq<u8>, Seq<u8>>, keys: Seq<Vec<u8>>, values: Seq<Vec<u8>>) -> bool {
    &&& keys.len() == values.len()
    &&& forall|i: int| 0 <= i < keys.len() ==> (#[trigger] values[i])@ == m[keys[i]@]
}

/// The value of each key of the map once.
pub open spec fn lists_values(m: Map<Seq<u8>, Seq<u8>>, values: Seq<Vec<u8>>) -> bool {
    exists|keys: Seq<Vec<u8>>| lists_keys(m, keys) && #[trigger] values_under(m, keys, values)
}

/// Entries with distinct keys make up a map that has each of them.
pub proof fn lemma_map_of(items: Seq<(Vec<u8>, Vec<u8>)>)
    requires
        forall|i: int, j: int| 0 <= i < j < items.len() ==> #[trigger] items[i].0@ != #[trigger] items[j].0@,
    ensures
        forall|i: int|
            0 <= i < items.len() ==> map_of(items).contains_key((#[trigger] items[i]).0@) && map_of(items)[items[i].0@]
                == items[i].1@,
        forall|k: Seq<u8>| #[trigger]
            map_of(items).contains_key(k) ==> exists|i: int| 0 <= i < items.len() && (#[trigger] items[i]).0@ == k,
        map_of(items).dom().finite(),
        map_of(items).len() == items.len(),
    decreases items.len(),
{
    if items.len() > 0 {
        let p = items.drop_last();
        let n = items.len() - 1;
        assert forall|i: int, j: int| 0 <= i < j < p.len() implies #[trigger] p[i].0@ != #[trigger] p[j].0@ by {
            assert(p[i] == items[i] && p[j] == items[j]);
        }
        lemma_map_of(p);
        assert forall|i: int| 0 <= i < items.len() implies map_of(items).contains_key((#[trigger] items[i]).0@)
            && map_of(items)[items[i].0@] == items[i].1@ by {
            if i < n {
                assert(p[i] == items[i]);
                assert(items[i].0@ != items[n].0@);
            }
        }
        assert forall|k: Seq<u8>| #[trigger] map_of(items).contains_key(k) implies exists|i: int|
            0 <= i < items.len() && (#[trigger] items[i]).0@ == k by {
            if k == items[n].0@ {
                assert(items[n].0@ == k);
            } else {
                assert(map_of(p).contains_key(k));
                let i = choose|i: int| 0 <= i < p.len() && (#[trigger] p[i]).0@ == k;
                assert(items[i].0@ == k);
            }
        }
        assert(!map_of(p).contains_key(items[n].0@)) by {
            if map_of(p).contains_key(items[n].0@) {
                let i = choose|i: int| 0 <= i < p.len() && (#[trigger] p[i]).0@ == items[n].0@;
                assert(items[i].0@ != items[n].0@);
            }
        }
    }
}

/// Entries that go with the keys of a map list it.
pub proof fn lemma_lists(m: Map<Seq<u8>, Seq<u8>>, keys: Seq<Vec<u8>>, items: Seq<(Vec<u8>, Vec<u8>)>)
    requires
        lists_keys(m, keys),
        items.len() == keys.len(),
        forall|i: int| 0 <= i < keys.len() ==> (#[trigger] items[i]).0@ == keys[i]@ && items[i].1@ == m[keys[i]@],
    ensures
        lists_entries(m, items),
{
    assert forall|i: int, j: int| 0 <= i < j < items.len() implies #[trigger] items[i].0@ != #[trigger] items[j].0@ by {
        assert(keys[i]@ != keys[j]@);
    }
    lemma_map_of(items);
    assert forall|k: Seq<u8>| #[trigger] m.contains_key(k) implies map_of(items).contains_key(k) && map_of(items)[k]
        == m[k] by {
        assert(among(keys, keys.len() as int, k));
        let i = choose|i: int| 0 <= i < keys.len() && #[trigger] keys[i]@ == k;
        assert(items[i].0@ == k);
    }
    assert forall|k: Seq<u8>| #[trigger] map_of(items).contains_key(k) implies m.contains_key(k) by {
        let i = choose|i: int| 0 <= i < items.len() && (#[trigger] items[i]).0@ == k;
        assert(keys[i]@ == k);
    }
    assert(map_of(items).dom() =~= m.dom());
    assert(map_of(items) =~= m);
}

/// The entry of the map with the least key, or `None` where it is empty.
pub open spec fn is_first(m: Map<Seq<u8>, Seq<u8>>, r: Option<(Vec<u8>, Vec<u8>)>) -> bool {
    match r {
        Some((k, v)) => m.contains_key(k@) && m[k@] == v@ && forall|x: Seq<u8>| #[trigger]
            m.contains_key(x) ==> lex::le(k@, x),
        None => m.dom() == Set::<Seq<u8>>::empty(),
    }
}

/// The entry of the map with the greatest key, or `None` where it is empty.
pub open spec fn is_last(m: Map<Seq<u8>, Seq<u8>>, r: Option<(Vec<u8>, Vec<u8>)>) -> bool {
    match r {
        Some((k, v)) => m.contains_key(k@) && m[k@] == v@ && forall|x: Seq<u8>| #[trigger]
            m.contains_key(x) ==> lex::le(x, k@),
        None => m.dom() == Set::<Seq<u8>>::empty(),
    }
}

/// The keys of entries.
pub fn keys_of(items: Vec<(Vec<u8>, Vec<u8>)>, Ghost(m): Ghost<Map<Seq<u8>, Seq<u8>>>) -> (r: Vec<Vec<u8>>)
    requires
        ascending(items@),
        map_of(items@) == m,
    ensures
        lists_keys(m, r@),
        rising(r@),
{
    let mut r: Vec<Vec<u8>> = Vec::with_capacity(items.len());
    let mut i: usize = 0;
    while i < items.len()
        invariant
            0 <= i <= items@.len(),
            r@.len() == i,
            forall|j: int| 0 <= j < i ==> (#[trigger] r@[j])@ == items@[j].0@,
        decreases items@.len() - i,
    {
        r.push(items[i].0.duplicate());
        i = i + 1;
    }
    proof {
        lemma_keys_listed(m, items@, r@);
    }
    r
}

/// The values of entries.
pub fn values_in_order(items: Vec<(Vec<u8>, Vec<u8>)>, Ghost(m): Ghost<Map<Seq<u8>, Seq<u8>>>) -> (r: Vec<Vec<u8>>)
    requires
        ascending(items@),
        map_of(items@) == m,
    ensures
        exists|keys: Seq<Vec<u8>>| lists_keys(m, keys) && rising(keys) && #[trigger] values_under(m, keys, r@),
{
    let ghost keys = Seq::new(items@.len(), |i: int| items@[i].0);
    proof {
        lemma_keys_listed(m, items@, keys);
    }
    let mut r: Vec<Vec<u8>> = Vec::with_capacity(items.len());
    let mut i: usize = 0;
    while i < items.len()
        invariant
            0 <= i <= items@.len(),
            r@.len() == i,
            forall|j: int| 0 <= j < i ==> (#[trigger] r@[j])@ == items@[j].1@,
        decreases items@.len() - i,
    {
        r.push(items[i].1.duplicate());
        i = i + 1;
    }
    proof {
        lemma_distinct(items@);
        lemma_map_of(items@);
        assert forall|j: int| 0 <= j < keys.len() implies (#[trigger] r@[j])@ == m[keys[j]@] by {
            assert(map_of(items@)[items@[j].0@] == items@[j].1@);
        }
        assert(values_under(m, keys, r@));
    }
    r
}

/// Strictly rising keys are distinct.
pub proof fn lemma_distinct(items: Seq<(Vec<u8>, Vec<u8>)>)
    requires
        ascending(items),
    ensures
        forall|i: int, j: int| 0 <= i < j < items.len() ==> #[trigger] items[i].0@ != #[trigger] items[j].0@,
{
    lex::order_laws();
    assert forall|i: int, j: int| 0 <= i < j < items.len() implies #[trigger] items[i].0@ != #[trigger] items[j].0@ by {
        assert(lex::lt(items[i].0@, items[j].0@));
    }
}

proof fn lemma_keys_listed(m: Map<Seq<u8>, Seq<u8>>, items: Seq<(Vec<u8>, Vec<u8>)>, keys: Seq<Vec<u8>>)
    requires
        ascending(items),
        map_of(items) == m,
        keys.len() == items.len(),
        forall|j: int| 0 <= j < keys.len() ==> (#[trigger] keys[j])@ == items[j].0@,
    ensures
        lists_keys(m, keys),
        rising(keys),
{
    lemma_distinct(items);
    lemma_map_of(items);
    assert forall|i: int, j: int| 0 <= i < j < keys.len() implies #[trigger] keys[i]@ != #[trigger] keys[j]@ by {
        assert(items[i].0@ != items[j].0@);
    }
    assert forall|i: int, j: int| 0 <= i < j < keys.len() implies lex::le(#[trigger] keys[i]@, #[trigger] keys[j]@) by {
        assert(lex::lt(items[i].0@, items[j].0@));
    }
    assert forall|i: int| 0 <= i < keys.len() implies m.contains_key(#[trigger] keys[i]@) by {
        assert(map_of(items).contains_key(items[i].0@));
    }
    assert forall|k: Seq<u8>| #[trigger] m.contains_key(k) implies among(keys, keys.len() as int, k) by {
        let i = choose|i: int| 0 <= i < items.len() && (#[trigger] items[i]).0@ == k;
        assert(keys[i]@ == k);
    }
}

/// One more key is left out.
pub proof fn lemma_without_next(m: Map<Seq<u8>, Seq<u8>>, keys: Seq<Vec<u8>>, n: int)
    requires
        0 <= n < keys.len(),
    ensures
        without(m, keys, n + 1) == without(m, keys, n).remove(keys[n]@),
{
    lemma_among_next(keys, n);
    assert forall|k: Seq<u8>| #[trigger]
        without(m, keys, n + 1).contains_key(k) == without(m, keys, n).remove(keys[n]@).contains_key(k) by {
        assert(among(keys, n + 1, k) <==> among(keys, n, k) || k == keys[n]@);
    }
    assert(without(m, keys, n + 1) =~= without(m, keys, n).remove(keys[n]@));
}

/// Entries with distinct keys make up the same map backwards.
pub proof fn lemma_backwards(items: Seq<(Vec<u8>, Vec<u8>)>)
    requires
        forall|i: int, j: int| 0 <= i < j < items.len() ==> #[trigger] items[i].0@ != #[trigger] items[j].0@,
    ensures
        map_of(items.reverse()) == map_of(items),
{
    let r = items.reverse();
    let n = items.len() as int;
    assert forall|i: int, j: int| 0 <= i < j < r.len() implies #[trigger] r[i].0@ != #[trigger] r[j].0@ by {
        assert(items[n - 1 - j].0@ != items[n - 1 - i].0@);
    }
    lemma_map_of(items);
    lemma_map_of(r);
    assert forall|k: Seq<u8>| #[trigger] map_of(r).contains_key(k) implies map_of(items).contains_key(k)
        && map_of(items)[k] == map_of(r)[k] by {
        let i = choose|i: int| 0 <= i < r.len() && (#[trigger] r[i]).0@ == k;
        assert(items[n - 1 - i] == r[i]);
    }
    assert forall|k: Seq<u8>| #[trigger] map_of(items).contains_key(k) implies map_of(r).contains_key(k) by {
        let i = choose|i: int| 0 <= i < items.len() && (#[trigger] items[i]).0@ == k;
        assert(r[n - 1 - i] == items[i]);
    }
    assert(map_of(r) =~= map_of(items));
}

/// There is one way to list a map in key order.
pub proof fn listing_is_unique(a: Seq<(Vec<u8>, Vec<u8>)>, b: Seq<(Vec<u8>, Vec<u8>)>)
    requires
        ascending(a),
        ascending(b),
        map_of(a) == map_of(b),
    ensures
        a.len() == b.len(),
        forall|i: int| 0 <= i < a.len() ==> (#[trigger] a[i]).0@ == b[i].0@ && a[i].1@ == b[i].1@,
{
    lemma_distinct(a);
    lemma_distinct(b);
    lemma_map_of(a);
    lemma_map_of(b);
    lemma_same_keys(a, b, a.len() as int);
    assert forall|i: int| 0 <= i < a.len() implies (#[trigger] a[i]).0@ == b[i].0@ && a[i].1@ == b[i].1@ by {
        assert(map_of(b)[b[i].0@] == b[i].1@);
    }
}

proof fn lemma_same_keys(a: Seq<(Vec<u8>, Vec<u8>)>, b: Seq<(Vec<u8>, Vec<u8>)>, n: int)
    requires
        ascending(a),
        ascending(b),
        map_of(a) == map_of(b),
        a.len() == b.len(),
        0 <= n <= a.len(),
    ensures
        forall|i: int| 0 <= i < n ==> (#[trigger] a[i]).0@ == b[i].0@,
    decreases n,
{
    if n > 0 {
        let i = n - 1;
        lemma_same_keys(a, b, i);
        lemma_distinct(a);
        lemma_distinct(b);
        lemma_map_of(a);
        lemma_map_of(b);
        lex::order_laws();
        if a[i].0@ != b[i].0@ {
            assert(map_of(b).contains_key(a[i].0@));
            assert(map_of(a).contains_key(b[i].0@));
            let x = choose|x: int| 0 <= x < b.len() && (#[trigger] b[x]).0@ == a[i].0@;
            let y = choose|y: int| 0 <= y < a.len() && (#[trigger] a[y]).0@ == b[i].0@;
            if x < i {
                assert(a[x].0@ == b[x].0@);
                assert(lex::lt(a[x].0@, a[i].0@));
            } else if y < i {
                assert(a[y].0@ == b[y].0@);
                assert(lex::lt(b[y].0@, b[i].0@));
            } else {
                assert(lex::lt(b[i].0@, b[x].0@));
                assert(lex::lt(a[i].0@, a[y].0@));
            }
            assert(false);
        }
    }
}

/// Listing a map against the key order gives the entries of the other listing backwards.
pub proof fn listings_mirror(up: Seq<(Vec<u8>, Vec<u8>)>, down: Seq<(Vec<u8>, Vec<u8>)>)
    requires
        ascending(up),
        descending(down),
        map_of(up) == map_of(down),
    ensures
        up.len() == down.len(),
        forall|i: int|
            0 <= i < up.len() ==> (#[trigger] up[i]).0@ == down[up.len() - 1 - i].0@ && up[i].1@ == down[up.len() - 1
                - i].1@,
{
    lex::order_laws();
    let r = down.reverse();
    let n = down.len() as int;
    assert forall|i: int, j: int| 0 <= i < j < down.len() implies #[trigger] down[i].0@ != #[trigger] down[j].0@ by {
        assert(lex::lt(down[j].0@, down[i].0@));
    }
    lemma_backwards(down);
    assert forall|i: int, j: int| 0 <= i < j < r.len() implies lex::lt(#[trigger] r[i].0@, #[trigger] r[j].0@) by {
        assert(lex::lt(down[n - 1 - i].0@, down[n - 1 - j].0@));
    }
    listing_is_unique(up, r);
    assert forall|i: int| 0 <= i < up.len() implies (#[trigger] up[i]).0@ == down[up.len() - 1 - i].0@ && up[i].1@
        == down[up.len() - 1 - i].1@ by {
        assert(r[i] == down[n - 1 - i]);
    }
}

/// Rising entries backwards.
pub fn backwards(items: Vec<(Vec<u8>, Vec<u8>)>) -> (r: Vec<(Vec<u8>, Vec<u8>)>)
    requires
        ascending(items@),
    ensures
        descending(r@),
        map_of(r@) == map_of(items@),
        r@ == items@.reverse(),
{
    let ghost was = items@;
    let r: Vec<(Vec<u8>, Vec<u8>)> = vecs::reversed(items);
    proof {
        lemma_distinct(was);
        lemma_backwards(was);
        assert(r@ =~= was.reverse());
        let n = was.len() as int;
        assert forall|i: int, j: int| 0 <= i < j < r@.len() implies lex::lt(#[trigger] r@[j].0@, #[trigger] r@[i].0@) by {
            assert(lex::lt(was[n - 1 - j].0@, was[n - 1 - i].0@));
        }
    }
    r
}

/// Of entries that are put one after the other, the last one with a key stays; what has no new entry
/// stays as it was.
pub proof fn last_put_stays(m: Map<Seq<u8>, Seq<u8>>, items: Seq<(Vec<u8>, Vec<u8>)>, k: Seq<u8>, i: int)
    requires
        -1 <= i < items.len(),
        i >= 0 ==> items[i].0@ == k,
        forall|j: int| i < j < items.len() ==> (#[trigger] items[j]).0@ != k,
    ensures
        i >= 0 ==> put_all(m, items).contains_key(k) && put_all(m, items)[k] == items[i].1@,
        i < 0 ==> agree_at(put_all(m, items), m, k),
    decreases items.len(),
{
    if items.len() > 0 && i < items.len() - 1 {
        let d = items.drop_last();
        assert(items[items.len() - 1].0@ != k);
        assert forall|j: int| i < j < d.len() implies (#[trigger] d[j]).0@ != k by {
            assert(d[j] == items[j]);
        }
        last_put_stays(m, d, k, i);
    }
}

/// A range has the keys from its start on, the start among them, and before its end.
pub proof fn range_has_its_start_and_not_its_end(
    m: Map<Seq<u8>, Seq<u8>>,
    start: Seq<u8>,
    end: Seq<u8>,
    k: Seq<u8>,
)
    ensures
        between(m, start, Some(end)).contains_key(k) == (m.contains_key(k) && (k == start || lex::lt(start, k)) && lex::lt(
            k,
            end,
        )),
        between(m, start, Some(end)).contains_key(k) ==> between(m, start, Some(end))[k] == m[k],
        between(m, start, None).contains_key(k) == (m.contains_key(k) && (k == start || lex::lt(start, k))),
{
    lex::order_laws();
    lex::lt_total(start, k);
    if lex::lt(start, k) && lex::lt(k, start) {
        lex::lt_trans(start, k, start);
    }
}

/// Putting entries lays their map over another.
pub proof fn lemma_put_all_over(m: Map<Seq<u8>, Seq<u8>>, items: Seq<(Vec<u8>, Vec<u8>)>)
    ensures
        put_all(m, items) == m.union_prefer_right(map_of(items)),
    decreases items.len(),
{
    if items.len() == 0 {
        assert(m.union_prefer_right(map_of(items)) =~= m);
    } else {
        lemma_put_all_over(m, items.drop_last());
        assert(put_all(m, items) =~= m.union_prefer_right(map_of(items)));
    }
}

/// The keys of entries, in their order.
pub open spec fn first_of_each(items: Seq<(Vec<u8>, Vec<u8>)>, keys: Seq<Vec<u8>>) -> bool {
    &&& keys.len() == items.len()
    &&& forall|i: int| 0 <= i < keys.len() ==> (#[trigger] keys[i])@ == items[i].0@
}

/// The values of entries, in their order.
pub open spec fn second_of_each(items: Seq<(Vec<u8>, Vec<u8>)>, values: Seq<Vec<u8>>) -> bool {
    &&& values.len() == items.len()
    &&& forall|i: int| 0 <= i < values.len() ==> (#[trigger] values[i])@ == items[i].1@
}

/// The keys of listed entries.
pub fn listed_keys(items: &Vec<(Vec<u8>, Vec<u8>)>, Ghost(m): Ghost<Map<Seq<u8>, Seq<u8>>>) -> (r: Vec<Vec<u8>>)
    requires
        lists_entries(m, items@),
    ensures
        lists_keys(m, r@),
        ascending(items@) ==> rising(r@),
        first_of_each(items@, r@),
{
    let mut r: Vec<Vec<u8>> = Vec::with_capacity(items.len());
    let mut i: usize = 0;
    while i < items.len()
        invariant
            0 <= i <= items@.len(),
            r@.len() == i,
            forall|j: int| 0 <= j < i ==> (#[trigger] r@[j])@ == items@[j].0@,
        decreases items@.len() - i,
    {
        r.push(items[i].0.duplicate());
        i = i + 1;
    }
    proof {
        lemma_map_of(items@);
        assert forall|a: int, b: int| 0 <= a < b < r@.len() implies #[trigger] r@[a]@ != #[trigger] r@[b]@ by {
            assert(items@[a].0@ != items@[b].0@);
        }
        assert forall|a: int| 0 <= a < r@.len() implies m.contains_key(#[trigger] r@[a]@) by {
            assert(map_of(items@).contains_key(items@[a].0@));
        }
        assert forall|k: Seq<u8>| #[trigger] m.contains_key(k) implies among(r@, r@.len() as int, k) by {
            let a = choose|a: int| 0 <= a < items@.len() && (#[trigger] items@[a]).0@ == k;
            assert(r@[a]@ == k);
        }
        if ascending(items@) {
            assert forall|a: int, b: int| 0 <= a < b < r@.len() implies lex::le(#[trigger] r@[a]@, #[trigger] r@[b]@) by {
                assert(lex::lt(items@[a].0@, items@[b].0@));
            }
        }
    }
    r
}

/// The values of listed entries, in the order of their keys.
pub fn listed_values(items: &Vec<(Vec<u8>, Vec<u8>)>, Ghost(m): Ghost<Map<Seq<u8>, Seq<u8>>>) -> (r: Vec<Vec<u8>>)
    requires
        lists_entries(m, items@),
    ensures
        exists|keys: Seq<Vec<u8>>|
            lists_keys(m, keys) && (ascending(items@) ==> rising(keys)) && #[trigger] values_under(m, keys, r@),
        second_of_each(items@, r@),
{
    let keys: Vec<Vec<u8>> = listed_keys(items, Ghost(m));
    let mut r: Vec<Vec<u8>> = Vec::with_capacity(items.len());
    let mut i: usize = 0;
    while i < items.len()
        invariant
            0 <= i <= items@.len(),
            r@.len() == i,
            forall|j: int| 0 <= j < i ==> (#[trigger] r@[j])@ == items@[j].1@,
        decreases items@.len() - i,
    {
        r.push(items[i].1.duplicate());
        i = i + 1;
    }
    proof {
        lemma_map_of(items@);
        assert forall|j: int| 0 <= j < keys@.len() implies (#[trigger] r@[j])@ == m[keys@[j]@] by {
            assert(map_of(items@)[items@[j].0@] == items@[j].1@);
        }
        assert(values_under(m, keys@, r@));
    }
    r
}

} // verus!
