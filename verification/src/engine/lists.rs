//! Skip lists from byte keys to something that carries bytes, read as maps of bytes.

use crate::engine::maps;
use crate::engine::ordered;
use crate::engine::skiplist;
use crate::engine::skiplist::{SkipList, SkipListCapacity, SkipListConfig};
use crate::utils::key::Key;
use crate::utils::lex;
use vstd::prelude::*;

verus! {

/// What a list holds under a key: some bytes, and possibly more.
pub trait Payload: Sized {
    /// The bytes.
    spec fn bytes(&self) -> Seq<u8>;

    /// A copy of the bytes.
    fn copy(&self) -> (r: Vec<u8>)
        ensures
            r@ == self.bytes(),
    ;
}

impl Payload for Vec<u8> {
    open spec fn bytes(&self) -> Seq<u8> {
        self@
    }

    fn copy(&self) -> (r: Vec<u8>) {
        self.duplicate()
    }
}

/// The bytes under each key.
pub open spec fn bytes_of<B: Payload>(m: Map<Seq<u8>, B>) -> Map<Seq<u8>, Seq<u8>> {
    m.map_values(|b: B| b.bytes())
}

/// Owned copies of entries.
fn copy_out<B: Payload>(items: &Vec<(&Vec<u8>, &B)>) -> (r: Vec<(Vec<u8>, Vec<u8>)>)
    ensures
        r@.len() == items@.len(),
        forall|i: int|
            0 <= i < r@.len() ==> (#[trigger] r@[i]).0@ == items@[i].0@ && r@[i].1@ == items@[i].1.bytes(),
{
    let mut r: Vec<(Vec<u8>, Vec<u8>)> = Vec::with_capacity(items.len());
    let mut i: usize = 0;
    while i < items.len()
        invariant
            0 <= i <= items@.len(),
            r@.len() == i,
            forall|j: int|
                0 <= j < i ==> (#[trigger] r@[j]).0@ == items@[j].0@ && r@[j].1@ == items@[j].1.bytes(),
        decreases items@.len() - i,
    {
        let k: Vec<u8> = items[i].0.duplicate();
        let v: Vec<u8> = items[i].1.copy();
        r.push((k, v));
        i = i + 1;
    }
    r
}

/// Copies of rising entries rise, and hold the same map.
proof fn lemma_copies<B: Payload>(items: Seq<(Seq<u8>, B)>, r: Seq<(Vec<u8>, Vec<u8>)>)
    requires
        ordered::rising::<Vec<u8>, B>(items),
        r.len() == items.len(),
        forall|i: int| 0 <= i < r.len() ==> (#[trigger] r[i]).0@ == items[i].0 && r[i].1@ == items[i].1.bytes(),
    ensures
        maps::ascending(r),
        maps::map_of(r) == bytes_of(ordered::map_of(items)),
{
    assert forall|i: int, j: int| 0 <= i < j < r.len() implies lex::lt(#[trigger] r[i].0@, #[trigger] r[j].0@) by {
        assert(r[i].0@ == items[i].0 && r[j].0@ == items[j].0);
        assert(<Vec<u8> as Key>::before(items[i].0, items[j].0));
    }
    lemma_copies_map(items, r);
}

proof fn lemma_copies_map<B: Payload>(items: Seq<(Seq<u8>, B)>, r: Seq<(Vec<u8>, Vec<u8>)>)
    requires
        ordered::rising::<Vec<u8>, B>(items),
        r.len() == items.len(),
        forall|i: int| 0 <= i < r.len() ==> (#[trigger] r[i]).0@ == items[i].0 && r[i].1@ == items[i].1.bytes(),
    ensures
        maps::map_of(r) == bytes_of(ordered::map_of(items)),
{
    lex::order_laws();
    assert forall|i: int, j: int| 0 <= i < j < r.len() implies #[trigger] r[i].0@ != #[trigger] r[j].0@ by {
        assert(r[i].0@ == items[i].0 && r[j].0@ == items[j].0);
        assert(<Vec<u8> as Key>::before(items[i].0, items[j].0));
    }
    maps::lemma_map_of(r);
    let m = maps::map_of(r);
    let w = bytes_of(ordered::map_of(items));
    assert forall|k: Seq<u8>| #[trigger] m.contains_key(k) implies w.contains_key(k) && w[k] == m[k] by {
        let i = choose|i: int| 0 <= i < r.len() && (#[trigger] r[i]).0@ == k;
        ordered::lemma_place::<Vec<u8>, B>(items, i);
    }
    assert forall|k: Seq<u8>| #[trigger] w.contains_key(k) implies m.contains_key(k) by {
        let i = ordered::place(items, k);
        assert(ordered::has_key(items, k));
        assert(r[i].0@ == k);
    }
    assert(m =~= w);
}

/// Backwards copies of rising entries fall, and hold the same map.
proof fn lemma_copies_rev<B: Payload>(items: Seq<(Seq<u8>, B)>, r: Seq<(Vec<u8>, Vec<u8>)>)
    requires
        ordered::rising::<Vec<u8>, B>(items),
        r.len() == items.len(),
        forall|i: int|
            0 <= i < r.len() ==> (#[trigger] r[i]).0@ == items.reverse()[i].0 && r[i].1@
                == items.reverse()[i].1.bytes(),
    ensures
        maps::descending(r),
        maps::map_of(r) == bytes_of(ordered::map_of(items)),
{
    let f = r.reverse();
    let n = r.len() as int;
    assert forall|i: int| 0 <= i < n implies (#[trigger] f[i]).0@ == items[i].0 && f[i].1@ == items[i].1.bytes() by {
        assert(f[i] == r[n - 1 - i]);
    }
    lemma_copies(items, f);
    assert forall|i: int, j: int| 0 <= i < j < r.len() implies lex::lt(#[trigger] r[j].0@, #[trigger] r[i].0@) by {
        assert(f[n - 1 - j] == r[j] && f[n - 1 - i] == r[i]);
        assert(lex::lt(f[n - 1 - j].0@, f[n - 1 - i].0@));
    }
    lex::order_laws();
    maps::lemma_map_of(f);
    maps::lemma_map_of(r);
    assert forall|k: Seq<u8>| #[trigger] maps::map_of(r).contains_key(k) implies maps::map_of(f).contains_key(k)
        && maps::map_of(f)[k] == maps::map_of(r)[k] by {
        let i = choose|i: int| 0 <= i < r.len() && (#[trigger] r[i]).0@ == k;
        assert(f[n - 1 - i] == r[i]);
    }
    assert forall|k: Seq<u8>| #[trigger] maps::map_of(f).contains_key(k) implies maps::map_of(r).contains_key(k) by {
        let i = choose|i: int| 0 <= i < f.len() && (#[trigger] f[i]).0@ == k;
        assert(r[n - 1 - i] == f[i]);
    }
    assert(maps::map_of(r) =~= maps::map_of(f));
}

/// The part of the map in a range is what the entries in it hold.
proof fn lemma_between<B: Payload>(list: &SkipList<Vec<u8>, B>, start: Seq<u8>, end: Seq<u8>)
    requires
        list.wf(),
    ensures
        ordered::rising::<Vec<u8>, B>(ordered::within::<Vec<u8>, B>(list.items(), start, end)),
        bytes_of(ordered::map_of(ordered::within::<Vec<u8>, B>(list.items(), start, end))) == maps::between(
            bytes_of(list@),
            start,
            Some(end),
        ),
{
    let items = list.items();
    let w = ordered::within::<Vec<u8>, B>(items, start, end);
    list.lemma_items();
    ordered::lemma_within_map::<Vec<u8>, B>(items, start, end);
    let m = bytes_of(list@);
    let a = bytes_of(ordered::map_of(w));
    let b = maps::between(m, start, Some(end));
    assert forall|k: Seq<u8>| #[trigger] a.contains_key(k) implies b.contains_key(k) && a[k] == b[k] by {
        assert(ordered::map_of(w).contains_key(k));
        assert(list@.contains_key(k));
    }
    assert forall|k: Seq<u8>| #[trigger] b.contains_key(k) implies a.contains_key(k) by {
        assert(m.contains_key(k));
        assert(list@.contains_key(k));
        assert(ordered::map_of(w).contains_key(k));
    }
    assert(a =~= b);
}

/// The entries in key order.
pub fn entries<B: Payload>(list: &SkipList<Vec<u8>, B>) -> (r: Vec<(Vec<u8>, Vec<u8>)>)
    requires
        list.wf(),
    ensures
        maps::ascending(r@),
        maps::map_of(r@) == bytes_of(list@),
{
    let all: Vec<(&Vec<u8>, &B)> = list.entries();
    let r: Vec<(Vec<u8>, Vec<u8>)> = copy_out(&all);
    proof {
        lemma_copies(list.items(), r@);
    }
    r
}

/// The entries in falling key order.
pub fn entries_rev<B: Payload>(list: &SkipList<Vec<u8>, B>) -> (r: Vec<(Vec<u8>, Vec<u8>)>)
    requires
        list.wf(),
    ensures
        maps::descending(r@),
        maps::map_of(r@) == bytes_of(list@),
{
    let all: Vec<(&Vec<u8>, &B)> = list.entries_rev();
    let r: Vec<(Vec<u8>, Vec<u8>)> = copy_out(&all);
    proof {
        lemma_copies_rev(list.items(), r@);
    }
    r
}

/// The entries with keys from `start` on and before `end`, in key order.
pub fn range<B: Payload>(list: &SkipList<Vec<u8>, B>, start: &Vec<u8>, end: &Vec<u8>) -> (r: Vec<(Vec<u8>, Vec<u8>)>)
    requires
        list.wf(),
    ensures
        maps::ascending(r@),
        maps::map_of(r@) == maps::between(bytes_of(list@), start@, Some(end@)),
{
    let all: Vec<(&Vec<u8>, &B)> = list.range(start, end);
    let r: Vec<(Vec<u8>, Vec<u8>)> = copy_out(&all);
    proof {
        lemma_between(list, start@, end@);
        lemma_copies(ordered::within::<Vec<u8>, B>(list.items(), start@, end@), r@);
    }
    r
}

/// The entries with keys from `start` on and before `end`, in falling key order.
pub fn range_rev<B: Payload>(list: &SkipList<Vec<u8>, B>, start: &Vec<u8>, end: &Vec<u8>) -> (r: Vec<
    (Vec<u8>, Vec<u8>),
>)
    requires
        list.wf(),
    ensures
        maps::descending(r@),
        maps::map_of(r@) == maps::between(bytes_of(list@), start@, Some(end@)),
{
    let all: Vec<(&Vec<u8>, &B)> = list.range_rev(start, end);
    let r: Vec<(Vec<u8>, Vec<u8>)> = copy_out(&all);
    proof {
        lemma_between(list, start@, end@);
        lemma_copies_rev(ordered::within::<Vec<u8>, B>(list.items(), start@, end@), r@);
    }
    r
}

/// The entry with the least key.
pub fn first<B: Payload>(list: &SkipList<Vec<u8>, B>) -> (r: Option<(Vec<u8>, Vec<u8>)>)
    requires
        list.wf(),
    ensures
        maps::is_first(bytes_of(list@), r),
{
    proof {
        list.lemma_items();
    }
    let ghost items = list.items();
    let ghost m = bytes_of(list@);
    match list.first() {
        Some((k, s)) => {
            proof {
                ordered::lemma_place::<Vec<u8>, B>(items, 0);
                assert forall|x: Seq<u8>| #[trigger] m.contains_key(x) implies lex::le(items[0].0, x) by {
                    assert(list@.contains_key(x));
                    let i = ordered::place(items, x);
                    assert(ordered::has_key(items, x));
                    if i > 0 {
                        assert(<Vec<u8> as Key>::before(items[0].0, items[i].0));
                    }
                }
            }
            Some((k.duplicate(), s.copy()))
        },
        None => {
            assert(m.dom() =~= Set::<Seq<u8>>::empty());
            None
        },
    }
}

/// The entry with the greatest key.
pub fn last<B: Payload>(list: &SkipList<Vec<u8>, B>) -> (r: Option<(Vec<u8>, Vec<u8>)>)
    requires
        list.wf(),
    ensures
        maps::is_last(bytes_of(list@), r),
{
    proof {
        list.lemma_items();
    }
    let ghost items = list.items();
    let ghost m = bytes_of(list@);
    match list.last() {
        Some((k, s)) => {
            proof {
                let n = items.len() - 1;
                ordered::lemma_place::<Vec<u8>, B>(items, n);
                assert forall|x: Seq<u8>| #[trigger] m.contains_key(x) implies lex::le(x, items[n].0) by {
                    assert(list@.contains_key(x));
                    let i = ordered::place(items, x);
                    assert(ordered::has_key(items, x));
                    if i < n {
                        assert(<Vec<u8> as Key>::before(items[i].0, items[n].0));
                    }
                }
            }
            Some((k.duplicate(), s.copy()))
        },
        None => {
            assert(m.dom() =~= Set::<Seq<u8>>::empty());
            None
        },
    }
}

/// Putting entries one after the other, seen as bytes.
pub proof fn lemma_put_all(m: Map<Seq<u8>, Vec<u8>>, items: Seq<(Vec<u8>, Vec<u8>)>)
    ensures
        bytes_of(ordered::put_all(m, items)) == maps::put_all(bytes_of(m), items),
    decreases items.len(),
{
    if items.len() > 0 {
        lemma_put_all(m, items.drop_last());
        let a = ordered::put_all(m, items.drop_last());
        lemma_insert(a, items.last().0@, items.last().1);
    }
}

/// Putting one entry, seen as bytes.
pub proof fn lemma_insert<B: Payload>(m: Map<Seq<u8>, B>, k: Seq<u8>, b: B)
    ensures
        bytes_of(m.insert(k, b)) == bytes_of(m).insert(k, b.bytes()),
        bytes_of(m).dom() == m.dom(),
        bytes_of(m.remove(k)) == bytes_of(m).remove(k),
{
    assert(bytes_of(m.insert(k, b)) =~= bytes_of(m).insert(k, b.bytes()));
    assert(bytes_of(m).dom() =~= m.dom());
    assert(bytes_of(m.remove(k)) =~= bytes_of(m).remove(k));
}

/// Removing a key, seen as bytes.
pub proof fn lemma_gone<B: Payload>(m: Map<Seq<u8>, B>, k: Seq<u8>)
    ensures
        bytes_of(m).dom() == m.dom(),
        bytes_of(m.remove(k)) == bytes_of(m).remove(k),
{
    assert(bytes_of(m).dom() =~= m.dom());
    assert(bytes_of(m.remove(k)) =~= bytes_of(m).remove(k));
}

/// Leaving out keys, seen as bytes.
pub proof fn lemma_without<B: Payload>(m: Map<Seq<u8>, B>, keys: Seq<Vec<u8>>, n: int)
    ensures
        bytes_of(ordered::without(m, keys, n)) == maps::without(bytes_of(m), keys, n),
{
    let a = bytes_of(ordered::without(m, keys, n));
    let b = maps::without(bytes_of(m), keys, n);
    assert forall|k: Seq<u8>| ordered::among(keys, n, k) == maps::among(keys, n, k) by {
        if ordered::among(keys, n, k) {
            let i = choose|i: int| 0 <= i < n && i < keys.len() && (#[trigger] keys[i])@ == k;
            assert(keys[i]@ == k);
        }
        if maps::among(keys, n, k) {
            let i = choose|i: int| 0 <= i < n && i < keys.len() && #[trigger] keys[i]@ == k;
            assert(keys[i]@ == k);
        }
    }
    assert forall|k: Seq<u8>| #[trigger] a.contains_key(k) == b.contains_key(k) by {
        assert(ordered::among(keys, n, k) == maps::among(keys, n, k));
    }
    assert(a =~= b);
}

/// Entries with distinct keys in key order.
pub fn sorted(rows: Vec<(Vec<u8>, Vec<u8>)>) -> (r: Vec<(Vec<u8>, Vec<u8>)>)
    requires
        rows@.len() <= skiplist::MAX_NODES,
    ensures
        maps::ascending(r@),
        maps::map_of(r@) == maps::map_of(rows@),
{
    let mut list: SkipList<Vec<u8>, Vec<u8>> = SkipList::new(
        SkipListConfig { capacity: SkipListCapacity::Unbounded },
    );
    let mut i: usize = 0;
    proof {
        assert(rows@.take(0) =~= Seq::empty());
        assert(bytes_of(list@) =~= Map::empty());
    }
    while i < rows.len()
        invariant
            i <= rows@.len(),
            rows@.len() <= skiplist::MAX_NODES,
            list.wf(),
            list.config_view().capacity == SkipListCapacity::Unbounded,
            list@.len() <= i,
            bytes_of(list@) == maps::map_of(rows@.take(i as int)),
        decreases rows.len() - i,
    {
        let key: Vec<u8> = rows[i].0.duplicate();
        let value: Vec<u8> = rows[i].1.duplicate();
        let ghost m = list@;
        let ghost v = value;
        let ghost k = key@;
        proof {
            list.lemma_items();
        }
        match list.put(key, value) {
            Ok(_) => {},
            Err(_) => {
                assert(false);
            },
        }
        proof {
            lemma_insert(m, k, v);
            assert(rows@.take(i + 1).drop_last() =~= rows@.take(i as int));
            assert(m.dom().insert(k).len() <= m.dom().len() + 1);
            assert(list@.dom() =~= m.dom().insert(k));
        }
        i = i + 1;
    }
    assert(rows@.take(i as int) =~= rows@);
    entries(&list)
}

/// The entries with keys from `start` on and before `end`.
pub fn filtered(rows: &Vec<(Vec<u8>, Vec<u8>)>, start: &Vec<u8>, end: &Vec<u8>) -> (r: Vec<(Vec<u8>, Vec<u8>)>)
    requires
        forall|i: int, j: int| 0 <= i < j < rows@.len() ==> #[trigger] rows@[i].0@ != #[trigger] rows@[j].0@,
    ensures
        r@.len() <= rows@.len(),
        maps::map_of(r@) == maps::between(maps::map_of(rows@), start@, Some(end@)),
{
    let mut r: Vec<(Vec<u8>, Vec<u8>)> = Vec::new();
    let mut i: usize = 0;
    proof {
        assert(rows@.take(0) =~= Seq::empty());
        assert(maps::between(maps::map_of(rows@.take(0)), start@, Some(end@)) =~= maps::map_of(r@));
    }
    while i < rows.len()
        invariant
            i <= rows@.len(),
            r@.len() <= i,
            maps::map_of(r@) == maps::between(maps::map_of(rows@.take(i as int)), start@, Some(end@)),
            forall|a: int, b: int| 0 <= a < b < rows@.len() ==> #[trigger] rows@[a].0@ != #[trigger] rows@[b].0@,
        decreases rows.len() - i,
    {
        let ghost was = rows@.take(i as int);
        let ghost now = rows@.take(i + 1);
        let ghost k = rows@[i as int].0@;
        let ghost v = rows@[i as int].1@;
        let ghost before = r@;
        proof {
            assert(now.drop_last() =~= was);
            assert forall|a: int, b: int| 0 <= a < b < was.len() implies #[trigger] was[a].0@ != #[trigger] was[b].0@ by {
                assert(rows@[a].0@ != rows@[b].0@);
            }
            maps::lemma_map_of(was);
            if maps::map_of(was).contains_key(k) {
                let j = choose|j: int| 0 <= j < was.len() && (#[trigger] was[j]).0@ == k;
                assert(rows@[j].0@ != rows@[i as int].0@);
            }
        }
        let low: bool = matches!(lex::compare_bytes(&rows[i].0, start), lex::Order::Less);
        let high: bool = matches!(lex::compare_bytes(&rows[i].0, end), lex::Order::Less);
        proof {
            lex::order_laws();
        }
        if !low && high {
            r.push((rows[i].0.duplicate(), rows[i].1.duplicate()));
            proof {
                assert(r@.drop_last() =~= before);
                assert(maps::map_of(r@) =~= maps::between(maps::map_of(now), start@, Some(end@)));
            }
        } else {
            assert(maps::map_of(r@) =~= maps::between(maps::map_of(now), start@, Some(end@)));
        }
        i = i + 1;
    }
    assert(rows@.take(i as int) =~= rows@);
    r
}

/// The entry with the least key (or, for `greatest`, with the greatest).
pub fn extreme(rows: &Vec<(Vec<u8>, Vec<u8>)>, greatest: bool) -> (r: Option<(Vec<u8>, Vec<u8>)>)
    requires
        forall|i: int, j: int| 0 <= i < j < rows@.len() ==> #[trigger] rows@[i].0@ != #[trigger] rows@[j].0@,
    ensures
        greatest ==> maps::is_last(maps::map_of(rows@), r),
        !greatest ==> maps::is_first(maps::map_of(rows@), r),
{
    proof {
        maps::lemma_map_of(rows@);
        lex::order_laws();
    }
    if rows.len() == 0 {
        assert(maps::map_of(rows@).dom() =~= Set::<Seq<u8>>::empty());
        return None;
    }
    let mut best: usize = 0;
    let mut i: usize = 1;
    while i < rows.len()
        invariant
            1 <= i <= rows@.len(),
            best < i,
            greatest ==> forall|j: int| 0 <= j < i ==> lex::le((#[trigger] rows@[j]).0@, rows@[best as int].0@),
            !greatest ==> forall|j: int| 0 <= j < i ==> lex::le(rows@[best as int].0@, (#[trigger] rows@[j]).0@),
        decreases rows.len() - i,
    {
        proof {
            lex::order_laws();
        }
        let better: bool = if greatest {
            matches!(lex::compare_bytes(&rows[best].0, &rows[i].0), lex::Order::Less)
        } else {
            matches!(lex::compare_bytes(&rows[i].0, &rows[best].0), lex::Order::Less)
        };
        if better {
            best = i;
        }
        i = i + 1;
    }
    proof {
        let m = maps::map_of(rows@);
        let b = rows@[best as int].0@;
        assert forall|x: Seq<u8>| #[trigger] m.contains_key(x) implies (if greatest {
            lex::le(x, b)
        } else {
            lex::le(b, x)
        }) by {
            let j = choose|j: int| 0 <= j < rows@.len() && (#[trigger] rows@[j]).0@ == x;
            assert(rows@[j].0@ == x);
        }
    }
    Some((rows[best].0.duplicate(), rows[best].1.duplicate()))
}

} // verus!
