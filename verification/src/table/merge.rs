//! Merging the rows of a store with newer ones that wait in memory. The newer ones win.

use crate::engine::maps;
use crate::utils::key::Key;
use crate::utils::lex;
use vstd::prelude::*;

verus! {

/// Which way the rows go.
#[derive(Clone, Copy, Debug, PartialEq, Eq, Structural)]
pub enum IterationOrder {
    Ascending,
    Descending,
}

/// A row.
pub type Row = (Vec<u8>, Vec<u8>);

/// `a` comes before `b`.
pub open spec fn comes_first(order: IterationOrder, a: Seq<u8>, b: Seq<u8>) -> bool {
    match order {
        IterationOrder::Ascending => lex::lt(a, b),
        IterationOrder::Descending => lex::lt(b, a),
    }
}

/// The keys go the given way.
pub open spec fn goes(order: IterationOrder, s: Seq<Row>) -> bool {
    forall|i: int, j: int|
        0 <= i < j < s.len() ==> comes_first(order, #[trigger] s[i].0@, #[trigger] s[j].0@)
}

/// The rows of both, the one that comes first from either; of equal keys that of `c`.
pub open spec fn merged(order: IterationOrder, s: Seq<Row>, c: Seq<Row>) -> Seq<Row>
    decreases s.len() + c.len(),
{
    if s.len() == 0 {
        c
    } else if c.len() == 0 {
        s
    } else if comes_first(order, s[0].0@, c[0].0@) {
        seq![s[0]] + merged(order, s.skip(1), c)
    } else if comes_first(order, c[0].0@, s[0].0@) {
        seq![c[0]] + merged(order, s, c.skip(1))
    } else {
        seq![c[0]] + merged(order, s.skip(1), c.skip(1))
    }
}

/// The first map with the second laid over it.
pub open spec fn overlay(m: Map<Seq<u8>, Seq<u8>>, over: Map<Seq<u8>, Seq<u8>>) -> Map<Seq<u8>, Seq<u8>> {
    m.union_prefer_right(over)
}

/// A row that is laid over others is seen; another is seen where none is laid over it.
pub proof fn rows_laid_over_win(m: Map<Seq<u8>, Seq<u8>>, over: Map<Seq<u8>, Seq<u8>>, k: Seq<u8>)
    ensures
        over.contains_key(k) ==> overlay(m, over).contains_key(k) && overlay(m, over)[k] == over[k],
        !over.contains_key(k) ==> overlay(m, over).contains_key(k) == m.contains_key(k),
        !over.contains_key(k) && m.contains_key(k) ==> overlay(m, over)[k] == m[k],
{
}

/// Merging goes through a store's rows and those laid over them.
pub struct MergedEntries {
    state: Vec<Row>,
    cache: Vec<Row>,
    order: IterationOrder,
    i: usize,
    j: usize,
}

impl MergedEntries {
    pub closed spec fn wf(&self) -> bool {
        self.i <= self.state@.len() && self.j <= self.cache@.len()
    }

    /// The rows still to come.
    pub closed spec fn rest(&self) -> Seq<Row> {
        merged(self.order, self.state@.skip(self.i as int), self.cache@.skip(self.j as int))
    }

    pub fn new(state: Vec<Row>, cache: Vec<Row>, order: IterationOrder) -> (r: MergedEntries)
        ensures
            r.wf(),
            r.rest() == merged(order, state@, cache@),
    {
        let r = MergedEntries { state, cache, order, i: 0, j: 0 };
        assert(r.state@.skip(0) =~= state@);
        assert(r.cache@.skip(0) =~= cache@);
        r
    }

    /// The next row.
    pub fn next(&mut self) -> (r: Option<Row>)
        requires
            old(self).wf(),
        ensures
            final(self).wf(),
            match r {
                Some((k, v)) => old(self).rest().len() > 0 && k@ == old(self).rest()[0].0@ && v@ == old(
                    self,
                ).rest()[0].1@ && final(self).rest() == old(self).rest().skip(1),
                None => old(self).rest().len() == 0 && *final(self) == *old(self),
            },
    {
        let ghost s = self.state@.skip(self.i as int);
        let ghost c = self.cache@.skip(self.j as int);
        proof {
            lex::order_laws();
            if s.len() > 0 {
                assert(s.skip(1) =~= self.state@.skip(self.i + 1));
            }
            if c.len() > 0 {
                assert(c.skip(1) =~= self.cache@.skip(self.j + 1));
            }
        }
        if self.i >= self.state.len() && self.j >= self.cache.len() {
            return None;
        }
        if self.j >= self.cache.len() {
            let row = &self.state[self.i];
            self.i = self.i + 1;
            assert(self.rest() =~= old(self).rest().skip(1));
            return Some((row.0.duplicate(), row.1.duplicate()));
        }
        if self.i >= self.state.len() {
            let row = &self.cache[self.j];
            self.j = self.j + 1;
            assert(self.rest() =~= old(self).rest().skip(1));
            return Some((row.0.duplicate(), row.1.duplicate()));
        }
        let way = lex::compare_bytes(&self.state[self.i].0, &self.cache[self.j].0);
        let first: bool = match self.order {
            IterationOrder::Ascending => matches!(way, lex::Order::Less),
            IterationOrder::Descending => matches!(way, lex::Order::Greater),
        };
        if first {
            let row = &self.state[self.i];
            self.i = self.i + 1;
            assert(self.rest() =~= old(self).rest().skip(1));
            return Some((row.0.duplicate(), row.1.duplicate()));
        }
        if matches!(way, lex::Order::Equal) {
            self.i = self.i + 1;
        }
        let row = &self.cache[self.j];
        self.j = self.j + 1;
        assert(self.rest() =~= old(self).rest().skip(1));
        Some((row.0.duplicate(), row.1.duplicate()))
    }
}

/// Rows of ascending (descending) lists, one after the other.
pub fn merge(state: Vec<Row>, cache: Vec<Row>, order: IterationOrder) -> (r: Vec<Row>)
    requires
        goes(order, state@),
        goes(order, cache@),
    ensures
        goes(order, r@),
        maps::map_of(r@) == overlay(maps::map_of(state@), maps::map_of(cache@)),
{
    let ghost all = merged(order, state@, cache@);
    let ghost s = state@;
    let ghost c = cache@;
    let mut rows = MergedEntries::new(state, cache, order);
    let mut r: Vec<Row> = Vec::new();
    assert(all.skip(0) =~= all);
    loop
        invariant_except_break
            rows.wf(),
            r@.len() <= all.len(),
            rows.rest() == all.skip(r@.len() as int),
            forall|i: int| 0 <= i < r@.len() ==> (#[trigger] r@[i]).0@ == all[i].0@ && r@[i].1@ == all[i].1@,
        ensures
            r@.len() == all.len(),
            forall|i: int| 0 <= i < r@.len() ==> (#[trigger] r@[i]).0@ == all[i].0@ && r@[i].1@ == all[i].1@,
        decreases all.len() - r@.len(),
    {
        match rows.next() {
            Some(row) => {
                r.push(row);
                assert(all.skip(r@.len() - 1).skip(1) =~= all.skip(r@.len() as int));
            },
            None => {
                break;
            },
        }
    }
    proof {
        lemma_merged(order, s, c);
        lemma_same_rows(order, r@, all);
    }
    r
}

/// Rows that read the same go the same way and make up the same map.
proof fn lemma_same_rows(order: IterationOrder, r: Seq<Row>, all: Seq<Row>)
    requires
        goes(order, all),
        r.len() == all.len(),
        forall|i: int| 0 <= i < r.len() ==> (#[trigger] r[i]).0@ == all[i].0@ && r[i].1@ == all[i].1@,
    ensures
        goes(order, r),
        maps::map_of(r) == maps::map_of(all),
    decreases r.len(),
{
    assert forall|i: int, j: int| 0 <= i < j < r.len() implies comes_first(order, #[trigger] r[i].0@, #[trigger] r[j].0@) by {
        assert(comes_first(order, all[i].0@, all[j].0@));
    }
    if r.len() > 0 {
        let (x, y) = (r.drop_last(), all.drop_last());
        assert forall|i: int, j: int| 0 <= i < j < y.len() implies comes_first(order, #[trigger] y[i].0@, #[trigger] y[j].0@) by {
            assert(comes_first(order, all[i].0@, all[j].0@));
        }
        assert forall|i: int| 0 <= i < x.len() implies (#[trigger] x[i]).0@ == y[i].0@ && x[i].1@ == y[i].1@ by {
            assert(r[i].0@ == all[i].0@);
        }
        lemma_same_rows(order, x, y);
        let n = r.len() - 1;
        assert(r[n].0@ == all[n].0@ && r[n].1@ == all[n].1@);
    }
}

proof fn lemma_rest(order: IterationOrder, s: Seq<Row>)
    requires
        goes(order, s),
        s.len() > 0,
    ensures
        goes(order, s.skip(1)),
        maps::map_of(s) == maps::map_of(s.skip(1)).insert(s[0].0@, s[0].1@),
        !maps::map_of(s.skip(1)).contains_key(s[0].0@),
        forall|k: Seq<u8>| #[trigger] maps::map_of(s.skip(1)).contains_key(k) ==> comes_first(order, s[0].0@, k),
{
    lex::order_laws();
    let t = s.skip(1);
    assert forall|i: int, j: int| 0 <= i < j < t.len() implies comes_first(order, #[trigger] t[i].0@, #[trigger] t[j].0@) by {
        assert(comes_first(order, s[i + 1].0@, s[j + 1].0@));
    }
    lemma_distinct(order, s);
    lemma_distinct(order, t);
    maps::lemma_map_of(s);
    maps::lemma_map_of(t);
    let m = maps::map_of(s);
    let n = maps::map_of(t);
    assert forall|k: Seq<u8>| #[trigger] n.contains_key(k) implies comes_first(order, s[0].0@, k) && m.contains_key(k)
        && m[k] == n[k] by {
        let i = choose|i: int| 0 <= i < t.len() && (#[trigger] t[i]).0@ == k;
        assert(s[i + 1] == t[i]);
        assert(comes_first(order, s[0].0@, s[i + 1].0@));
    }
    assert forall|k: Seq<u8>| #[trigger] m.contains_key(k) implies k == s[0].0@ || n.contains_key(k) by {
        let i = choose|i: int| 0 <= i < s.len() && (#[trigger] s[i]).0@ == k;
        if i > 0 {
            assert(t[i - 1] == s[i]);
        }
    }
    assert(m.contains_key(s[0].0@) && m[s[0].0@] == s[0].1@);
    assert(m =~= n.insert(s[0].0@, s[0].1@));
}

proof fn lemma_distinct(order: IterationOrder, s: Seq<Row>)
    requires
        goes(order, s),
    ensures
        forall|i: int, j: int| 0 <= i < j < s.len() ==> #[trigger] s[i].0@ != #[trigger] s[j].0@,
{
    lex::order_laws();
    assert forall|i: int, j: int| 0 <= i < j < s.len() implies #[trigger] s[i].0@ != #[trigger] s[j].0@ by {
        assert(comes_first(order, s[i].0@, s[j].0@));
    }
}

/// One more row in front.
proof fn lemma_front(order: IterationOrder, row: Row, t: Seq<Row>)
    requires
        goes(order, t),
        forall|k: Seq<u8>| #[trigger] maps::map_of(t).contains_key(k) ==> comes_first(order, row.0@, k),
    ensures
        goes(order, seq![row] + t),
        maps::map_of(seq![row] + t) == maps::map_of(t).insert(row.0@, row.1@),
{
    let s = seq![row] + t;
    lemma_distinct(order, t);
    maps::lemma_map_of(t);
    assert forall|i: int, j: int| 0 <= i < j < s.len() implies comes_first(order, #[trigger] s[i].0@, #[trigger] s[j].0@) by {
        if i == 0 {
            assert(s[j] == t[j - 1]);
            assert(maps::map_of(t).contains_key(t[j - 1].0@));
        } else {
            assert(comes_first(order, t[i - 1].0@, t[j - 1].0@));
        }
    }
    lemma_rest(order, s);
    assert(s.skip(1) =~= t);
}

/// Merging keeps the order and lays the second map over the first.
pub proof fn lemma_merged(order: IterationOrder, s: Seq<Row>, c: Seq<Row>)
    requires
        goes(order, s),
        goes(order, c),
    ensures
        goes(order, merged(order, s, c)),
        maps::map_of(merged(order, s, c)) == overlay(maps::map_of(s), maps::map_of(c)),
    decreases s.len() + c.len(),
{
    let want = overlay(maps::map_of(s), maps::map_of(c));
    lex::order_laws();
    if s.len() == 0 {
        assert(maps::map_of(c) =~= want);
    } else if c.len() == 0 {
        assert(maps::map_of(s) =~= want);
    } else {
        lemma_rest(order, s);
        lemma_rest(order, c);
        let (sk, ck) = (s[0].0@, c[0].0@);
        let (ms, mc) = (maps::map_of(s.skip(1)), maps::map_of(c.skip(1)));
        if comes_first(order, sk, ck) {
            let t = merged(order, s.skip(1), c);
            lemma_merged(order, s.skip(1), c);
            assert forall|k: Seq<u8>| #[trigger] maps::map_of(t).contains_key(k) implies comes_first(order, sk, k) by {
                assert(ms.contains_key(k) || k == ck || mc.contains_key(k));
            }
            lemma_front(order, s[0], t);
            assert(!maps::map_of(c).contains_key(sk)) by {
                if mc.contains_key(sk) {
                    assert(comes_first(order, ck, sk));
                }
            }
            assert(maps::map_of(t).insert(sk, s[0].1@) =~= want);
        } else if comes_first(order, ck, sk) {
            let t = merged(order, s, c.skip(1));
            lemma_merged(order, s, c.skip(1));
            assert forall|k: Seq<u8>| #[trigger] maps::map_of(t).contains_key(k) implies comes_first(order, ck, k) by {
                assert(mc.contains_key(k) || k == sk || ms.contains_key(k));
            }
            lemma_front(order, c[0], t);
            assert(maps::map_of(t).insert(ck, c[0].1@) =~= want);
        } else {
            assert(sk == ck);
            let t = merged(order, s.skip(1), c.skip(1));
            lemma_merged(order, s.skip(1), c.skip(1));
            assert forall|k: Seq<u8>| #[trigger] maps::map_of(t).contains_key(k) implies comes_first(order, ck, k) by {
                assert(mc.contains_key(k) || ms.contains_key(k));
            }
            lemma_front(order, c[0], t);
            assert(maps::map_of(t).insert(ck, c[0].1@) =~= want);
        }
    }
}

/// Rows of the store whose keys are not laid over.
pub fn not_shadowed(rows: Vec<Row>, over: &Vec<Row>) -> (r: Vec<Row>)
    requires
        maps::ascending(over@),
        forall|i: int, j: int| 0 <= i < j < rows@.len() ==> #[trigger] rows@[i].0@ != #[trigger] rows@[j].0@,
    ensures
        forall|i: int, j: int| 0 <= i < j < r@.len() ==> #[trigger] r@[i].0@ != #[trigger] r@[j].0@,
        maps::map_of(r@) == maps::map_of(rows@).remove_keys(maps::map_of(over@).dom()),
        maps::ascending(rows@) ==> maps::ascending(r@),
{
    let mut r: Vec<Row> = Vec::new();
    let mut i: usize = 0;
    let ghost gone = maps::map_of(over@).dom();
    proof {
        assert(rows@.take(0) =~= Seq::empty());
        assert(maps::map_of(rows@.take(0)).remove_keys(gone) =~= maps::map_of(r@));
        maps::lemma_distinct(over@);
        maps::lemma_map_of(over@);
    }
    while i < rows.len()
        invariant
            i <= rows@.len(),
            maps::ascending(over@),
            gone == maps::map_of(over@).dom(),
            maps::map_of(r@) == maps::map_of(rows@.take(i as int)).remove_keys(gone),
            forall|a: int, b: int| 0 <= a < b < rows@.len() ==> #[trigger] rows@[a].0@ != #[trigger] rows@[b].0@,
            forall|a: int, b: int| 0 <= a < b < r@.len() ==> #[trigger] r@[a].0@ != #[trigger] r@[b].0@,
            forall|a: int| 0 <= a < r@.len() ==> from_before(rows@, i as int, #[trigger] r@[a].0@),
            maps::ascending(rows@) ==> maps::ascending(r@),
            forall|k: Seq<u8>| #[trigger] gone.contains(k) <==> exists|j: int| 0 <= j < over@.len() && (
            #[trigger] over@[j]).0@ == k,
        decreases rows.len() - i,
    {
        let ghost now = rows@.take(i + 1);
        let ghost k = rows@[i as int].0@;
        let ghost before = r@;
        proof {
            assert(now.drop_last() =~= rows@.take(i as int));
            assert forall|a: int| 0 <= a < r@.len() implies #[trigger] r@[a].0@ != k by {
                assert(from_before(rows@, i as int, r@[a].0@));
                let j = choose|j: int| 0 <= j < i && (#[trigger] rows@[j]).0@ == r@[a].0@;
                assert(rows@[j].0@ != rows@[i as int].0@);
            }
            let was = rows@.take(i as int);
            assert forall|a: int, b: int| 0 <= a < b < was.len() implies #[trigger] was[a].0@ != #[trigger] was[b].0@ by {
                assert(rows@[a].0@ != rows@[b].0@);
            }
            maps::lemma_map_of(was);
            if maps::map_of(was).contains_key(k) {
                let j = choose|j: int| 0 <= j < was.len() && (#[trigger] was[j]).0@ == k;
                assert(rows@[j].0@ != rows@[i as int].0@);
            }
        }
        if !holds_key(over, &rows[i].0) {
            r.push((rows[i].0.duplicate(), rows[i].1.duplicate()));
            proof {
                assert(r@.drop_last() =~= before);
                assert(maps::map_of(r@) =~= maps::map_of(now).remove_keys(gone));
                if maps::ascending(rows@) {
                    assert forall|a: int, b: int| 0 <= a < b < r@.len() implies lex::lt(
                        #[trigger] r@[a].0@,
                        #[trigger] r@[b].0@,
                    ) by {
                        if b < before.len() {
                            assert(lex::lt(before[a].0@, before[b].0@));
                        } else {
                            assert(from_before(rows@, i as int, before[a].0@));
                            let j = choose|j: int| 0 <= j < i && (#[trigger] rows@[j]).0@ == before[a].0@;
                            assert(lex::lt(rows@[j].0@, rows@[i as int].0@));
                        }
                    }
                }
                assert forall|a: int| 0 <= a < r@.len() implies from_before(rows@, i + 1, #[trigger] r@[a].0@) by {
                    if a < before.len() {
                        assert(from_before(rows@, i as int, before[a].0@));
                        let j = choose|j: int| 0 <= j < i && (#[trigger] rows@[j]).0@ == r@[a].0@;
                        assert(rows@[j].0@ == r@[a].0@);
                    } else {
                        assert(rows@[i as int].0@ == r@[a].0@);
                    }
                }
            }
        } else {
            proof {
                assert(maps::map_of(r@) =~= maps::map_of(now).remove_keys(gone));
                assert forall|a: int| 0 <= a < r@.len() implies from_before(rows@, i + 1, #[trigger] r@[a].0@) by {
                    assert(from_before(rows@, i as int, r@[a].0@));
                    let j = choose|j: int| 0 <= j < i && (#[trigger] rows@[j]).0@ == r@[a].0@;
                    assert(rows@[j].0@ == r@[a].0@);
                }
            }
        }
        i = i + 1;
    }
    assert(rows@.take(i as int) =~= rows@);
    r
}

spec fn from_before(rows: Seq<Row>, i: int, k: Seq<u8>) -> bool {
    exists|j: int| 0 <= j < i && (#[trigger] rows[j]).0@ == k
}

/// Whether an ascending list holds the key, by halving.
pub fn holds_key(rows: &Vec<Row>, key: &Vec<u8>) -> (r: bool)
    requires
        maps::ascending(rows@),
    ensures
        r == exists|j: int| 0 <= j < rows@.len() && (#[trigger] rows@[j]).0@ == key@,
{
    let mut lo: usize = 0;
    let mut hi: usize = rows.len();
    proof {
        lex::order_laws();
    }
    while lo < hi
        invariant
            lo <= hi <= rows@.len(),
            maps::ascending(rows@),
            forall|i: int| 0 <= i < lo ==> lex::lt((#[trigger] rows@[i]).0@, key@),
            forall|i: int| hi <= i < rows@.len() ==> lex::lt(key@, (#[trigger] rows@[i]).0@),
        decreases hi - lo,
    {
        let mid: usize = lo + (hi - lo) / 2;
        proof {
            lex::order_laws();
        }
        match lex::compare_bytes(&rows[mid].0, key) {
            lex::Order::Equal => {
                assert(rows@[mid as int].0@ == key@);
                return true;
            },
            lex::Order::Less => {
                assert forall|i: int| 0 <= i < mid + 1 implies lex::lt((#[trigger] rows@[i]).0@, key@) by {
                    if i < mid {
                        assert(lex::lt(rows@[i].0@, rows@[mid as int].0@));
                    }
                }
                lo = mid + 1;
            },
            lex::Order::Greater => {
                assert forall|i: int| mid <= i < rows@.len() implies lex::lt(key@, (#[trigger] rows@[i]).0@) by {
                    if i > mid {
                        assert(lex::lt(rows@[mid as int].0@, rows@[i].0@));
                    }
                }
                hi = mid;
            },
        }
    }
    false
}

/// Rows with distinct keys, and behind them others with keys of their own.
pub fn chained(a: Vec<Row>, b: Vec<Row>) -> (r: Vec<Row>)
    requires
        forall|i: int, j: int| 0 <= i < j < a@.len() ==> #[trigger] a@[i].0@ != #[trigger] a@[j].0@,
        forall|i: int, j: int| 0 <= i < j < b@.len() ==> #[trigger] b@[i].0@ != #[trigger] b@[j].0@,
        maps::map_of(a@).dom().disjoint(maps::map_of(b@).dom()),
    ensures
        maps::lists_entries(overlay(maps::map_of(a@), maps::map_of(b@)), r@),
        r@ == a@ + b@,
{
    let ghost x = a@;
    let ghost y = b@;
    let mut r: Vec<Row> = a;
    let mut b = b;
    r.append(&mut b);
    proof {
        maps::lemma_map_of(x);
        maps::lemma_map_of(y);
        let s = r@;
        assert(s =~= x + y);
        assert forall|i: int, j: int| 0 <= i < j < s.len() implies #[trigger] s[i].0@ != #[trigger] s[j].0@ by {
            if j < x.len() {
                assert(x[i].0@ != x[j].0@);
            } else if i >= x.len() {
                assert(y[i - x.len()].0@ != y[j - x.len()].0@);
            } else {
                assert(maps::map_of(x).contains_key(x[i].0@));
                assert(maps::map_of(y).contains_key(y[j - x.len()].0@));
            }
        }
        maps::lemma_map_of(s);
        let m = maps::map_of(s);
        let want = overlay(maps::map_of(x), maps::map_of(y));
        assert forall|k: Seq<u8>| #[trigger] m.contains_key(k) implies want.contains_key(k) && want[k] == m[k] by {
            let i = choose|i: int| 0 <= i < s.len() && (#[trigger] s[i]).0@ == k;
            if i < x.len() {
                assert(x[i] == s[i]);
                assert(maps::map_of(x).contains_key(k));
            } else {
                assert(y[i - x.len()] == s[i]);
                assert(maps::map_of(y).contains_key(k));
            }
        }
        assert forall|k: Seq<u8>| #[trigger] want.contains_key(k) implies m.contains_key(k) by {
            if maps::map_of(y).contains_key(k) {
                let i = choose|i: int| 0 <= i < y.len() && (#[trigger] y[i]).0@ == k;
                assert(s[x.len() + i] == y[i]);
            } else {
                let i = choose|i: int| 0 <= i < x.len() && (#[trigger] x[i]).0@ == k;
                assert(s[i] == x[i]);
            }
        }
        assert(m =~= want);
    }
    r
}

} // verus!
