//! An append-only log of records in a growing buffer.
//!
//! The buffer holds a four-byte magic number, then records, then a sentinel behind the last
//! one. A put is `[value size u32][value][key size u32][key]`; a tombstone, which deletes its
//! key, is `[0xFFFFFFFF][key size u32][key]`.

use crate::error::StorageError;
use crate::utils::le;
use crate::utils::ratio;
use crate::utils::ratio::Ratio;
use vstd::prelude::*;

verus! {

/// Size of the magic number.
pub const HEADER_SIZE: usize = 4;

/// Stands for the value size in a tombstone.
pub const TOMBSTONE: u32 = 0xFFFF_FFFF;

/// Ends the log.
pub const SENTINEL: u32 = 0xFFFF_FFFE;

/// Largest log.
pub const MAX_LOG: usize = usize::MAX / 4;

/// One record.
pub enum Rec {
    Put(Seq<u8>, Seq<u8>),
    Del(Seq<u8>),
}

pub open spec fn rec_key(r: Rec) -> Seq<u8> {
    match r {
        Rec::Put(k, _) => k,
        Rec::Del(k) => k,
    }
}

/// The bytes of a record.
pub open spec fn encode(r: Rec) -> Seq<u8> {
    match r {
        Rec::Put(k, v) => le::le4(v.len() as u32) + v + le::le4(k.len() as u32) + k,
        Rec::Del(k) => le::le4(TOMBSTONE) + le::le4(k.len() as u32) + k,
    }
}

/// A record whose sizes fit.
pub open spec fn rec_ok(r: Rec) -> bool {
    rec_size(r) <= u32::MAX
}

/// The length of a record.
pub open spec fn rec_size(r: Rec) -> int {
    match r {
        Rec::Put(k, v) => 8 + v.len() as int + k.len(),
        Rec::Del(k) => 8 + k.len() as int,
    }
}

/// The bytes of records one after the other.
pub open spec fn encode_all(rs: Seq<Rec>) -> Seq<u8>
    decreases rs.len(),
{
    if rs.len() == 0 {
        Seq::empty()
    } else {
        encode_all(rs.drop_last()) + encode(rs.last())
    }
}

/// Where record `i` starts.
pub open spec fn offset_of(rs: Seq<Rec>, i: int) -> int {
    HEADER_SIZE + encode_all(rs.take(i)).len()
}

/// What the records leave: the last put of each key that no tombstone follows.
pub open spec fn kv_of(rs: Seq<Rec>) -> Map<Seq<u8>, Seq<u8>>
    decreases rs.len(),
{
    if rs.len() == 0 {
        Map::empty()
    } else {
        match rs.last() {
            Rec::Put(k, v) => kv_of(rs.drop_last()).insert(k, v),
            Rec::Del(k) => kv_of(rs.drop_last()).remove(k),
        }
    }
}

/// Where the record of each live key starts, and its length.
pub open spec fn index_of(rs: Seq<Rec>) -> Map<Seq<u8>, (int, int)>
    decreases rs.len(),
{
    if rs.len() == 0 {
        Map::empty()
    } else {
        let at = offset_of(rs, rs.len() - 1);
        match rs.last() {
            Rec::Put(k, v) => index_of(rs.drop_last()).insert(k, (at, rec_size(rs.last()))),
            Rec::Del(k) => index_of(rs.drop_last()).remove(k),
        }
    }
}

/// Bytes of records that hold no live value: overwritten and deleted ones, and tombstones.
pub open spec fn dead_of(rs: Seq<Rec>) -> int
    decreases rs.len(),
{
    if rs.len() == 0 {
        0
    } else {
        let before = index_of(rs.drop_last());
        let k = rec_key(rs.last());
        dead_of(rs.drop_last()) + (if before.contains_key(k) {
            before[k].1
        } else {
            0
        }) + (if rs.last() is Del {
            rec_size(rs.last())
        } else {
            0
        })
    }
}

/// The record that starts at `at`, and where the next one starts.
pub open spec fn parse_one(b: Seq<u8>, at: int) -> Option<(Rec, int)> {
    let v = le::u32_at(b, at);
    if v == TOMBSTONE {
        let n = le::u32_at(b, at + 4) as int;
        if at + 8 > b.len() || at + 8 + n > b.len() || 8 + n > u32::MAX {
            None
        } else {
            Some((Rec::Del(b.subrange(at + 8, at + 8 + n)), at + 8 + n))
        }
    } else {
        let n = le::u32_at(b, at + 4 + v) as int;
        if at + 8 + v > b.len() || at + 8 + v + n > b.len() || 8 + v + n > u32::MAX {
            None
        } else {
            Some((Rec::Put(b.subrange(at + 8 + v, at + 8 + v + n), b.subrange(at + 4, at + 4 + v)), at + 8 + v + n))
        }
    }
}

/// Where the records end: at a sentinel, or where no value size is left.
pub open spec fn at_end(b: Seq<u8>, at: int) -> bool {
    at + 4 > b.len() || le::u32_at(b, at) == SENTINEL
}

/// The records from `at` on, or `None` where one is cut off.
pub open spec fn parse(b: Seq<u8>, at: int) -> Option<Seq<Rec>>
    decreases b.len() - at,
{
    if at_end(b, at) {
        Some(Seq::empty())
    } else {
        match parse_one(b, at) {
            None => None,
            Some((r, next)) => if next <= at {
                None
            } else {
                match parse(b, next) {
                    None => None,
                    Some(rest) => Some(seq![r] + rest),
                }
            },
        }
    }
}

pub proof fn lemma_encode_len(r: Rec)
    ensures
        encode(r).len() == rec_size(r),
{
}

pub proof fn lemma_take_next(rs: Seq<Rec>, i: int)
    requires
        0 <= i < rs.len(),
    ensures
        encode_all(rs.take(i + 1)) == encode_all(rs.take(i)) + encode(rs[i]),
        offset_of(rs, i + 1) == offset_of(rs, i) + rec_size(rs[i]),
{
    assert(rs.take(i + 1).drop_last() =~= rs.take(i));
    assert(rs.take(i + 1).last() == rs[i]);
    lemma_encode_len(rs[i]);
}

pub proof fn lemma_encode_append(a: Seq<Rec>, b: Seq<Rec>)
    ensures
        encode_all(a + b) == encode_all(a) + encode_all(b),
    decreases b.len(),
{
    if b.len() == 0 {
        assert(a + b =~= a);
        assert(encode_all(a) + encode_all(b) =~= encode_all(a));
    } else {
        assert((a + b).drop_last() =~= a + b.drop_last());
        lemma_encode_append(a, b.drop_last());
        assert(encode_all(a) + (encode_all(b.drop_last()) + encode(b.last())) =~= (encode_all(a) + encode_all(
            b.drop_last(),
        )) + encode(b.last()));
    }
}

/// The bytes of record `i` lie at its offset.
pub proof fn lemma_record_bytes(rs: Seq<Rec>, i: int)
    requires
        0 <= i < rs.len(),
    ensures
        0 <= offset_of(rs, i) - HEADER_SIZE,
        offset_of(rs, i) + rec_size(rs[i]) <= HEADER_SIZE + encode_all(rs).len(),
        encode_all(rs).subrange(
            offset_of(rs, i) - HEADER_SIZE,
            offset_of(rs, i) - HEADER_SIZE + rec_size(rs[i]),
        ) == encode(rs[i]),
{
    lemma_take_next(rs, i);
    lemma_encode_append(rs.take(i + 1), rs.skip(i + 1));
    assert(rs.take(i + 1) + rs.skip(i + 1) =~= rs);
    lemma_encode_len(rs[i]);
    let a = encode_all(rs.take(i));
    let o = a.len() as int;
    assert(encode_all(rs).subrange(o, o + rec_size(rs[i])) =~= encode(rs[i])) by {
        assert(encode_all(rs) == (a + encode(rs[i])) + encode_all(rs.skip(i + 1)));
    }
}

/// A record read where it was written is the record written.
pub proof fn lemma_parse_one(b: Seq<u8>, at: int, r: Rec)
    requires
        rec_ok(r),
        0 <= at,
        at + rec_size(r) <= b.len(),
        b.subrange(at, at + rec_size(r)) == encode(r),
    ensures
        parse_one(b, at) == Some((r, at + rec_size(r))),
        le::u32_at(b, at) != SENTINEL,
        r is Put ==> le::u32_at(b, at) == r->Put_1.len() && le::u32_at(b, at) < SENTINEL,
{
    let e = encode(r);
    lemma_encode_len(r);
    assert forall|i: int| 0 <= i < rec_size(r) implies #[trigger] b[at + i] == e[i] by {
        assert(b.subrange(at, at + rec_size(r))[i] == b[at + i]);
    }
    match r {
        Rec::Put(k, v) => {
            let n = v.len() as int;
            assert forall|i: int| 0 <= i < 4 implies #[trigger] le::le4(v.len() as u32)[i] == b[at + i] by {
                assert(b[at + i] == e[i]);
            }
            le::lemma_le4(b, at, v.len() as u32);
            assert forall|i: int| 0 <= i < 4 implies #[trigger] le::le4(k.len() as u32)[i] == b[at + 4 + n + i] by {
                assert(b[at + (4 + n + i)] == e[4 + n + i]);
            }
            le::lemma_le4(b, at + 4 + n, k.len() as u32);
            assert(b.subrange(at + 4, at + 4 + n) =~= v) by {
                assert forall|i: int| 0 <= i < n implies #[trigger] b.subrange(at + 4, at + 4 + n)[i] == v[i] by {
                    assert(b[at + (4 + i)] == e[4 + i]);
                }
            }
            assert(b.subrange(at + 8 + n, at + 8 + n + k.len()) =~= k) by {
                assert forall|i: int| 0 <= i < k.len() implies #[trigger] b.subrange(at + 8 + n, at + 8 + n + k.len())[i]
                    == k[i] by {
                    assert(b[at + (8 + n + i)] == e[8 + n + i]);
                }
            }
        },
        Rec::Del(k) => {
            assert forall|i: int| 0 <= i < 4 implies #[trigger] le::le4(TOMBSTONE)[i] == b[at + i] by {
                assert(b[at + i] == e[i]);
            }
            le::lemma_le4(b, at, TOMBSTONE);
            assert forall|i: int| 0 <= i < 4 implies #[trigger] le::le4(k.len() as u32)[i] == b[at + 4 + i] by {
                assert(b[at + (4 + i)] == e[4 + i]);
            }
            le::lemma_le4(b, at + 4, k.len() as u32);
            assert(b.subrange(at + 8, at + 8 + k.len()) =~= k) by {
                assert forall|i: int| 0 <= i < k.len() implies #[trigger] b.subrange(at + 8, at + 8 + k.len())[i]
                    == k[i] by {
                    assert(b[at + (8 + i)] == e[8 + i]);
                }
            }
        },
    }
}

/// All records fit.
pub open spec fn recs_ok(rs: Seq<Rec>) -> bool {
    forall|i: int| 0 <= i < rs.len() ==> rec_ok(#[trigger] rs[i])
}

/// The buffer holds the records and ends behind them.
pub open spec fn holds(b: Seq<u8>, rs: Seq<Rec>) -> bool {
    &&& HEADER_SIZE + encode_all(rs).len() <= b.len()
    &&& b.subrange(HEADER_SIZE as int, HEADER_SIZE + encode_all(rs).len()) == encode_all(rs)
    &&& recs_ok(rs)
}

/// Record `i` can be read in place.
pub proof fn lemma_holds_at(b: Seq<u8>, rs: Seq<Rec>, i: int)
    requires
        holds(b, rs),
        0 <= i < rs.len(),
    ensures
        HEADER_SIZE <= offset_of(rs, i),
        offset_of(rs, i) + rec_size(rs[i]) == offset_of(rs, i + 1),
        offset_of(rs, i + 1) <= HEADER_SIZE + encode_all(rs).len() <= b.len(),
        b.subrange(offset_of(rs, i), offset_of(rs, i) + rec_size(rs[i])) == encode(rs[i]),
        parse_one(b, offset_of(rs, i)) == Some((rs[i], offset_of(rs, i + 1))),
        le::u32_at(b, offset_of(rs, i)) != SENTINEL,
        rs[i] is Put ==> le::u32_at(b, offset_of(rs, i)) == rs[i]->Put_1.len(),
{
    lemma_record_bytes(rs, i);
    lemma_take_next(rs, i);
    let o = offset_of(rs, i);
    let n = rec_size(rs[i]);
    let all = encode_all(rs);
    assert(b.subrange(o, o + n) =~= encode(rs[i])) by {
        assert forall|j: int| 0 <= j < n implies #[trigger] b.subrange(o, o + n)[j] == encode(rs[i])[j] by {
            assert(b.subrange(4, 4 + all.len() as int)[o - 4 + j] == b[o + j]);
            assert(all.subrange(o - 4, o - 4 + n)[j] == all[o - 4 + j]);
        }
    }
    lemma_parse_one(b, o, rs[i]);
}

/// A buffer that holds records and then ends gives them back.
pub proof fn lemma_parse_all(b: Seq<u8>, rs: Seq<Rec>, i: int)
    requires
        holds(b, rs),
        at_end(b, HEADER_SIZE + encode_all(rs).len()),
        0 <= i <= rs.len(),
    ensures
        parse(b, offset_of(rs, i)) == Some(rs.skip(i)),
    decreases rs.len() - i,
{
    if i == rs.len() {
        assert(rs.take(i) =~= rs);
        assert(rs.skip(i) =~= Seq::<Rec>::empty());
    } else {
        lemma_holds_at(b, rs, i);
        lemma_parse_all(b, rs, i + 1);
        assert(seq![rs[i]] + rs.skip(i + 1) =~= rs.skip(i));
    }
}

pub proof fn lemma_offset_mono(rs: Seq<Rec>, i: int, j: int)
    requires
        0 <= i <= j <= rs.len(),
    ensures
        offset_of(rs, i) <= offset_of(rs, j),
        i < j ==> offset_of(rs, i) < offset_of(rs, j),
    decreases j - i,
{
    if i < j {
        lemma_take_next(rs, j - 1);
        lemma_offset_mono(rs, i, j - 1);
    }
}

/// The index has the live keys, and points at the records that hold their values.
pub proof fn lemma_index(rs: Seq<Rec>)
    ensures
        index_of(rs).dom() == kv_of(rs).dom(),
        index_of(rs).dom().finite(),
        forall|k: Seq<u8>| #[trigger] index_of(rs).contains_key(k) ==> exists|i: int| #[trigger] points_at(rs, k, i),
    decreases rs.len(),
{
    if rs.len() > 0 {
        let p = rs.drop_last();
        let n = rs.len() - 1;
        lemma_index(p);
        assert(index_of(rs).dom() =~= kv_of(rs).dom());
        assert forall|k: Seq<u8>| #[trigger] index_of(rs).contains_key(k) implies exists|i: int| #[trigger] points_at(
            rs,
            k,
            i,
        ) by {
            if rs.last() is Put && rec_key(rs.last()) == k {
                assert(points_at(rs, k, n));
            } else {
                assert(index_of(p).contains_key(k));
                let i = choose|i: int| #[trigger] points_at(p, k, i);
                assert(rs.take(i) =~= p.take(i));
                assert(points_at(rs, k, i));
            }
        }
    }
}

/// The index entry of `k` is record `i`, the put that gave `k` its value.
pub open spec fn points_at(rs: Seq<Rec>, k: Seq<u8>, i: int) -> bool {
    &&& 0 <= i < rs.len()
    &&& rs[i] == Rec::Put(k, kv_of(rs)[k])
    &&& index_of(rs)[k] == (offset_of(rs, i), rec_size(rs[i]))
}

/// The sum of the record lengths of an index.
pub open spec fn live_total(m: Map<Seq<u8>, (int, int)>) -> int
    decreases m.dom().len(),
{
    if m.dom().finite() && m.dom().len() > 0 {
        let k = m.dom().choose();
        m[k].1 + live_total(m.remove(k))
    } else {
        0
    }
}

proof fn lemma_live_remove(m: Map<Seq<u8>, (int, int)>, k: Seq<u8>)
    requires
        m.dom().finite(),
        m.contains_key(k),
    ensures
        live_total(m) == m[k].1 + live_total(m.remove(k)),
    decreases m.dom().len(),
{
    let c = m.dom().choose();
    assert(m.dom().contains(k));
    assert(m.dom().len() > 0);
    if c != k {
        let a = m.remove(c);
        let b = m.remove(k);
        assert(a.dom() =~= m.dom().remove(c));
        assert(b.dom() =~= m.dom().remove(k));
        lemma_live_remove(a, k);
        lemma_live_remove(b, c);
        assert(a.remove(k) =~= b.remove(c));
    }
}

proof fn lemma_live_bound(m: Map<Seq<u8>, (int, int)>)
    requires
        m.dom().finite(),
        forall|k: Seq<u8>| #[trigger] m.contains_key(k) ==> m[k].1 >= 0,
    ensures
        live_total(m) >= 0,
    decreases m.dom().len(),
{
    if m.dom().len() > 0 {
        let c = m.dom().choose();
        assert(m.contains_key(c));
        let a = m.remove(c);
        assert(a.dom() =~= m.dom().remove(c));
        assert forall|k: Seq<u8>| #[trigger] a.contains_key(k) implies a[k].1 >= 0 by {
            assert(m.contains_key(k));
        }
        lemma_live_bound(a);
    }
}

/// Part of an index has no more live bytes than all of it.
pub proof fn lemma_live_part(a: Map<Seq<u8>, (int, int)>, b: Map<Seq<u8>, (int, int)>)
    requires
        a.dom().finite(),
        b.dom().finite(),
        forall|k: Seq<u8>| #[trigger] a.contains_key(k) ==> a[k].1 >= 0,
        forall|k: Seq<u8>| #[trigger] b.contains_key(k) ==> a.contains_key(k) && a[k].1 == b[k].1,
    ensures
        live_total(b) <= live_total(a),
    decreases b.dom().len(),
{
    if b.dom().len() == 0 {
        lemma_live_bound(a);
    } else {
        let k = b.dom().choose();
        assert(b.contains_key(k));
        let a2 = a.remove(k);
        let b2 = b.remove(k);
        assert(a2.dom() =~= a.dom().remove(k));
        assert(b2.dom() =~= b.dom().remove(k));
        assert forall|x: Seq<u8>| #[trigger] b2.contains_key(x) implies a2.contains_key(x) && a2[x].1 == b2[x].1 by {
            assert(b.contains_key(x));
        }
        assert forall|x: Seq<u8>| #[trigger] a2.contains_key(x) implies a2[x].1 >= 0 by {
            assert(a.contains_key(x));
        }
        lemma_live_part(a2, b2);
        lemma_live_remove(a, k);
    }
}

/// Live and dead bytes make up the log.
pub proof fn lemma_dead_bound(rs: Seq<Rec>)
    ensures
        dead_of(rs) <= encode_all(rs).len(),
        0 <= dead_of(rs),
        dead_of(rs) + live_total(index_of(rs)) == encode_all(rs).len(),
        live_total(index_of(rs)) >= 0,
    decreases rs.len(),
{
    lemma_index(rs);
    if rs.len() == 0 {
        assert(index_of(rs).dom() =~= Set::<Seq<u8>>::empty());
    } else {
        let p = rs.drop_last();
        let r = rs.last();
        let k = rec_key(r);
        let m = index_of(p);
        lemma_dead_bound(p);
        lemma_index(p);
        lemma_encode_len(r);
        let without = m.remove(k);
        if m.contains_key(k) {
            lemma_live_remove(m, k);
        } else {
            assert(without =~= m);
        }
        match r {
            Rec::Put(_, _) => {
                let at = offset_of(rs, rs.len() - 1);
                let m2 = m.insert(k, (at, rec_size(r)));
                lemma_live_remove(m2, k);
                assert(m2.remove(k) =~= without);
            },
            Rec::Del(_) => {},
        }
        assert forall|x: Seq<u8>| #[trigger] index_of(rs).contains_key(x) implies index_of(rs)[x].1 >= 0 by {
            let i = choose|i: int| #[trigger] points_at(rs, x, i);
        }
        lemma_live_bound(index_of(rs));
    }
}

/// Record `i` is a put whose value is still live.
pub open spec fn live_at(rs: Seq<Rec>, i: int) -> bool {
    &&& rs[i] is Put
    &&& index_of(rs).contains_key(rec_key(rs[i]))
    &&& index_of(rs)[rec_key(rs[i])].0 == offset_of(rs, i)
}

/// The live ones of the first `n` records.
pub open spec fn live_recs(rs: Seq<Rec>, n: int) -> Seq<Rec>
    decreases n,
{
    if n <= 0 {
        Seq::empty()
    } else if live_at(rs, n - 1) {
        live_recs(rs, n - 1).push(rs[n - 1])
    } else {
        live_recs(rs, n - 1)
    }
}

/// The log without dead records.
pub open spec fn compacted(rs: Seq<Rec>) -> Seq<Rec> {
    live_recs(rs, rs.len() as int)
}

/// What the live ones of the first `n` records leave.
pub proof fn lemma_live_recs(rs: Seq<Rec>, n: int)
    requires
        0 <= n <= rs.len(),
        recs_ok(rs),
    ensures
        forall|k: Seq<u8>| #[trigger]
            kv_of(live_recs(rs, n)).contains_key(k) <==> index_of(rs).contains_key(k) && index_of(rs)[k].0 < offset_of(
                rs,
                n,
            ),
        forall|k: Seq<u8>| #[trigger]
            kv_of(live_recs(rs, n)).contains_key(k) ==> kv_of(live_recs(rs, n))[k] == kv_of(rs)[k],
        dead_of(live_recs(rs, n)) == 0,
        encode_all(live_recs(rs, n)).len() <= encode_all(rs.take(n)).len(),
        recs_ok(live_recs(rs, n)),
        n < rs.len() && live_at(rs, n) ==> !index_of(live_recs(rs, n)).contains_key(rec_key(rs[n])),
    decreases n,
{
    lemma_index(rs);
    lemma_index(live_recs(rs, n));
    if n <= 0 {
        assert forall|k: Seq<u8>| #[trigger] index_of(rs).contains_key(k) implies index_of(rs)[k].0 >= offset_of(rs, 0) by {
            let i = choose|i: int| #[trigger] points_at(rs, k, i);
            lemma_offset_mono(rs, 0, i);
        }
    } else {
        let m = n - 1;
        let a = live_recs(rs, m);
        lemma_live_recs(rs, m);
        lemma_index(a);
        lemma_take_next(rs, m);
        lemma_encode_len(rs[m]);
        assert forall|k: Seq<u8>| #[trigger] index_of(rs).contains_key(k) && offset_of(rs, m) <= index_of(rs)[k].0
            < offset_of(rs, n) implies live_at(rs, m) && rec_key(rs[m]) == k && rs[m]->Put_1 == kv_of(rs)[k] by {
            let i = choose|i: int| #[trigger] points_at(rs, k, i);
            if i < m {
                lemma_offset_mono(rs, i, m);
            } else if i > m {
                lemma_offset_mono(rs, n, i);
            }
        }
        if live_at(rs, m) {
            let b = a.push(rs[m]);
            assert(b.drop_last() =~= a);
            lemma_offset_mono(rs, m, n);
            let k = rec_key(rs[m]);
            let i = choose|i: int| #[trigger] points_at(rs, k, i);
            if i < m {
                lemma_offset_mono(rs, i, m);
            } else if i > m {
                lemma_offset_mono(rs, m, i);
            }
            assert forall|j: int| 0 <= j < b.len() implies rec_ok(#[trigger] b[j]) by {
                if j < a.len() {
                    assert(b[j] == a[j]);
                }
            }
        }
    }
}

/// The records after a write: compacted where the share `t` of dead bytes is reached.
pub open spec fn settled(t: Ratio, rs: Seq<Rec>) -> Seq<Rec> {
    if ratio::share_reached(t, dead_of(rs), HEADER_SIZE + encode_all(rs).len()) {
        compacted(rs)
    } else {
        rs
    }
}

/// The records after puts, one after the other.
pub open spec fn written(t: Ratio, rs: Seq<Rec>, items: Seq<(Vec<u8>, Vec<u8>)>) -> Seq<Rec>
    decreases items.len(),
{
    if items.len() == 0 {
        rs
    } else {
        settled(t, written(t, rs, items.drop_last()).push(Rec::Put(items.last().0@, items.last().1@)))
    }
}

/// The records after deletes, one after the other. A key that is not there leaves none.
pub open spec fn buried(t: Ratio, rs: Seq<Rec>, keys: Seq<Vec<u8>>) -> Seq<Rec>
    decreases keys.len(),
{
    if keys.len() == 0 {
        rs
    } else {
        let before = buried(t, rs, keys.drop_last());
        if kv_of(before).contains_key(keys.last()@) {
            settled(t, before.push(Rec::Del(keys.last()@)))
        } else {
            before
        }
    }
}

/// One more record takes no more than its own bytes.
pub proof fn lemma_settled(t: Ratio, rs: Seq<Rec>, r: Rec)
    requires
        recs_ok(rs.push(r)),
    ensures
        encode_all(settled(t, rs.push(r))).len() <= encode_all(rs).len() + encode(r).len(),
{
    let a = rs.push(r);
    assert(a.drop_last() =~= rs);
    lemma_compacted(a);
    lemma_dead_bound(a);
}

/// Compaction keeps what the log holds, and leaves nothing dead.
pub proof fn lemma_compacted(rs: Seq<Rec>)
    requires
        recs_ok(rs),
    ensures
        kv_of(compacted(rs)) == kv_of(rs),
        dead_of(compacted(rs)) == 0,
        encode_all(compacted(rs)).len() <= encode_all(rs).len(),
        recs_ok(compacted(rs)),
{
    let n = rs.len() as int;
    lemma_live_recs(rs, n);
    lemma_index(rs);
    assert(rs.take(n) =~= rs);
    assert forall|k: Seq<u8>| #[trigger] index_of(rs).contains_key(k) implies index_of(rs)[k].0 < offset_of(rs, n) by {
        let i = choose|i: int| #[trigger] points_at(rs, k, i);
        lemma_offset_mono(rs, i, n);
    }
    assert(kv_of(compacted(rs)) =~= kv_of(rs));
}

/// Records in which nothing is dead are puts of different keys.
#[verifier::rlimit(30)]
proof fn lemma_none_dead(rs: Seq<Rec>)
    requires
        dead_of(rs) == 0,
    ensures
        forall|i: int| 0 <= i < rs.len() ==> (#[trigger] rs[i]) is Put && kv_of(rs).contains_key(rec_key(rs[i])),
        forall|i: int, j: int| 0 <= i < j < rs.len() ==> rec_key(#[trigger] rs[i]) != rec_key(#[trigger] rs[j]),
    decreases rs.len(),
{
    if rs.len() > 0 {
        let p = rs.drop_last();
        let n = rs.len() - 1;
        lemma_index(p);
        lemma_dead_bound(p);
        if index_of(p).contains_key(rec_key(rs[n])) {
            let i = choose|i: int| #[trigger] points_at(p, rec_key(rs[n]), i);
            assert(points_at(p, rec_key(rs[n]), i));
        }
        lemma_none_dead(p);
        assert forall|i: int| 0 <= i < rs.len() implies (#[trigger] rs[i]) is Put && kv_of(rs).contains_key(
            rec_key(rs[i]),
        ) by {
            if i < n {
                assert(rs[i] == p[i]);
            }
        }
        assert forall|i: int, j: int| 0 <= i < j < rs.len() implies rec_key(#[trigger] rs[i]) != rec_key(
            #[trigger] rs[j],
        ) by {
            assert(rs[i] == p[i]);
            if j < n {
                assert(rs[j] == p[j]);
            }
        }
    }
}

/// Nothing is dead in puts of different keys.
#[verifier::rlimit(30)]
proof fn lemma_each_once(rs: Seq<Rec>)
    requires
        forall|i: int| 0 <= i < rs.len() ==> (#[trigger] rs[i]) is Put,
        forall|i: int, j: int| 0 <= i < j < rs.len() ==> rec_key(#[trigger] rs[i]) != rec_key(#[trigger] rs[j]),
    ensures
        dead_of(rs) == 0,
    decreases rs.len(),
{
    if rs.len() > 0 {
        let p = rs.drop_last();
        let n = rs.len() - 1;
        let k = rec_key(rs[n]);
        assert forall|i: int| 0 <= i < p.len() implies (#[trigger] p[i]) is Put && rec_key(p[i]) != k by {
            assert(p[i] == rs[i]);
        }
        assert forall|i: int, j: int| 0 <= i < j < p.len() implies rec_key(#[trigger] p[i]) != rec_key(
            #[trigger] p[j],
        ) by {
            assert(p[i] == rs[i] && p[j] == rs[j]);
        }
        lemma_each_once(p);
        lemma_index(p);
        if index_of(p).contains_key(k) {
            let i = choose|i: int| #[trigger] points_at(p, k, i);
            assert(rec_key(p[i]) == k);
        }
    }
}

/// The dead bytes are those beyond the bytes of records that hold each entry once and nothing else.
pub proof fn dead_bytes_are_the_rest(rs: Seq<Rec>, once: Seq<Rec>)
    requires
        forall|i: int| 0 <= i < once.len() ==> (#[trigger] once[i]) is Put,
        forall|i: int, j: int| 0 <= i < j < once.len() ==> rec_key(#[trigger] once[i]) != rec_key(#[trigger] once[j]),
        kv_of(once) == kv_of(rs),
    ensures
        dead_of(rs) == encode_all(rs).len() - encode_all(once).len(),
        dead_of(rs) >= 0,
{
    lemma_each_once(once);
    lemma_same_live(rs, once);
    lemma_dead_bound(rs);
    lemma_dead_bound(once);
}

/// The records after a write hold what they held. Take the bytes that they have beyond those of
/// records that hold each entry once and nothing else: where these are the share of the log that is
/// asked for, only such records stay; otherwise all do.
pub proof fn dead_bytes_set_off_compaction(t: Ratio, rs: Seq<Rec>, once: Seq<Rec>)
    requires
        recs_ok(rs),
        forall|i: int| 0 <= i < once.len() ==> (#[trigger] once[i]) is Put,
        forall|i: int, j: int| 0 <= i < j < once.len() ==> rec_key(#[trigger] once[i]) != rec_key(#[trigger] once[j]),
        kv_of(once) == kv_of(rs),
    ensures
        kv_of(settled(t, rs)) == kv_of(rs),
        encode_all(once).len() <= encode_all(rs).len(),
        if t.num < t.den && (encode_all(rs).len() - encode_all(once).len()) * t.den >= t.num * (4 + encode_all(rs).len()) {
            &&& encode_all(settled(t, rs)).len() == encode_all(once).len()
            &&& forall|i: int| 0 <= i < settled(t, rs).len() ==> rs.contains(#[trigger] settled(t, rs)[i])
            &&& forall|i: int| 0 <= i < settled(t, rs).len() ==> (#[trigger] settled(t, rs)[i]) is Put
            &&& forall|i: int, j: int|
                0 <= i < j < settled(t, rs).len() ==> rec_key(#[trigger] settled(t, rs)[i]) != rec_key(
                    #[trigger] settled(t, rs)[j],
                )
        } else {
            settled(t, rs) == rs
        },
{
    let kept = compacted(rs);
    lemma_compacted(rs);
    lemma_each_once(once);
    lemma_none_dead(kept);
    lemma_same_live(rs, once);
    lemma_same_live(rs, kept);
    lemma_dead_bound(rs);
    lemma_dead_bound(once);
    lemma_dead_bound(kept);
    assert forall|i: int| 0 <= i < kept.len() implies rs.contains(#[trigger] kept[i]) by {
        lemma_live_among(rs, rs.len() as int, i);
    }
}

/// A compacted log has one put for each entry, each from the log as it was, and no other records.
pub proof fn compaction_leaves_each_entry_once(rs: Seq<Rec>)
    requires
        recs_ok(rs),
    ensures
        kv_of(compacted(rs)) == kv_of(rs),
        forall|i: int| 0 <= i < compacted(rs).len() ==> (#[trigger] compacted(rs)[i]) is Put,
        forall|i: int| 0 <= i < compacted(rs).len() ==> rs.contains(#[trigger] compacted(rs)[i]),
        forall|i: int, j: int|
            0 <= i < j < compacted(rs).len() ==> rec_key(#[trigger] compacted(rs)[i]) != rec_key(
                #[trigger] compacted(rs)[j],
            ),
{
    lemma_compacted(rs);
    lemma_none_dead(compacted(rs));
    assert forall|i: int| 0 <= i < compacted(rs).len() implies rs.contains(#[trigger] compacted(rs)[i]) by {
        lemma_live_among(rs, rs.len() as int, i);
    }
}

proof fn lemma_live_among(rs: Seq<Rec>, n: int, i: int)
    requires
        0 <= n <= rs.len(),
        0 <= i < live_recs(rs, n).len(),
    ensures
        rs.contains(live_recs(rs, n)[i]),
    decreases n,
{
    if n > 0 {
        if i < live_recs(rs, n - 1).len() {
            lemma_live_among(rs, n - 1, i);
        } else {
            assert(live_recs(rs, n)[i] == rs[n - 1]);
        }
    }
}

/// Records that leave the same entries have the same live bytes.
proof fn lemma_same_live(a: Seq<Rec>, b: Seq<Rec>)
    requires
        kv_of(a) == kv_of(b),
    ensures
        live_total(index_of(a)) == live_total(index_of(b)),
{
    let x = index_of(a);
    let y = index_of(b);
    lemma_index(a);
    lemma_index(b);
    assert forall|k: Seq<u8>| #[trigger] x.contains_key(k) implies y.contains_key(k) && x[k].1 == y[k].1 && x[k].1 >= 0 by {
        assert(kv_of(a).contains_key(k));
        assert(kv_of(b).contains_key(k));
        assert(y.contains_key(k));
        let i = choose|i: int| #[trigger] points_at(a, k, i);
        let j = choose|j: int| #[trigger] points_at(b, k, j);
        assert(points_at(a, k, i) && points_at(b, k, j));
    }
    assert forall|k: Seq<u8>| #[trigger] y.contains_key(k) implies x.contains_key(k) && x[k].1 == y[k].1 && y[k].1 >= 0 by {
        assert(kv_of(b).contains_key(k));
        assert(kv_of(a).contains_key(k));
        assert(x.contains_key(k));
    }
    lemma_live_part(x, y);
    lemma_live_part(y, x);
}

/// The last record about a key decides what the records leave under it.
pub proof fn last_record_decides(rs: Seq<Rec>, i: int)
    requires
        0 <= i < rs.len(),
        forall|j: int| i < j < rs.len() ==> rec_key(#[trigger] rs[j]) != rec_key(rs[i]),
    ensures
        match rs[i] {
            Rec::Put(k, v) => kv_of(rs).contains_key(k) && kv_of(rs)[k] == v,
            Rec::Del(k) => !kv_of(rs).contains_key(k),
        },
    decreases rs.len(),
{
    let p = rs.drop_last();
    if i < p.len() {
        assert(p[i] == rs[i]);
        assert forall|j: int| i < j < p.len() implies rec_key(#[trigger] p[j]) != rec_key(p[i]) by {
            assert(p[j] == rs[j]);
        }
        assert(rec_key(rs[rs.len() - 1]) != rec_key(rs[i]));
        last_record_decides(p, i);
    }
}

/// Nothing stands under a key that no record is about.
pub proof fn no_record_no_entry(rs: Seq<Rec>, k: Seq<u8>)
    requires
        forall|j: int| 0 <= j < rs.len() ==> rec_key(#[trigger] rs[j]) != k,
    ensures
        !kv_of(rs).contains_key(k),
    decreases rs.len(),
{
    if rs.len() > 0 {
        let p = rs.drop_last();
        assert forall|j: int| 0 <= j < p.len() implies rec_key(#[trigger] p[j]) != k by {
            assert(p[j] == rs[j]);
        }
        assert(rec_key(rs[rs.len() - 1]) != k);
        no_record_no_entry(p, k);
    }
}

/// Where a record's parts lie.
pub struct Span {
    /// Whether the record is a put.
    pub live: bool,
    pub value_start: usize,
    pub value_end: usize,
    pub key_start: usize,
    pub key_end: usize,
}

/// The parts of the record at `at`, which ends where its key ends.
pub open spec fn span_of(b: Seq<u8>, at: int, s: Span) -> bool {
    &&& at + 8 <= s.key_end <= b.len()
    &&& s.value_start <= s.value_end <= s.key_start <= s.key_end
    &&& at + 8 <= s.key_start
    &&& at <= s.value_start
    &&& parse_one(b, at) == Some(
        (
            if s.live {
                Rec::Put(
                    b.subrange(s.key_start as int, s.key_end as int),
                    b.subrange(s.value_start as int, s.value_end as int),
                )
            } else {
                Rec::Del(b.subrange(s.key_start as int, s.key_end as int))
            },
            s.key_end as int,
        ),
    )
}

/// Reads the record at `at`, or `None` where it is cut off.
pub fn read_span(b: &[u8], at: usize) -> (r: Option<Span>)
    requires
        at + 4 <= b@.len(),
    ensures
        r is None <==> parse_one(b@, at as int) is None,
        r matches Some(s) ==> span_of(b@, at as int, s),
{
    let n: usize = b.len();
    let v: u32 = le::rd_u32(b, at);
    if v == TOMBSTONE {
        if n - at < 8 {
            return None;
        }
        let k: u32 = le::rd_u32(b, at + 4);
        if k > u32::MAX - 8 || n - at - 8 < k as usize {
            return None;
        }
        let end: usize = at + 8 + k as usize;
        Some(Span { live: false, value_start: at + 4, value_end: at + 4, key_start: at + 8, key_end: end })
    } else {
        if n - at < 8 || n - at - 8 < v as usize {
            return None;
        }
        let mid: usize = at + 4 + v as usize;
        let k: u32 = le::rd_u32(b, mid);
        if v > u32::MAX - 8 || k > u32::MAX - 8 - v || n - mid - 4 < k as usize {
            return None;
        }
        let end: usize = mid + 4 + k as usize;
        Some(Span { live: true, value_start: at + 4, value_end: mid, key_start: mid + 4, key_end: end })
    }
}

/// A log in memory.
pub struct Log {
    bytes: Vec<u8>,
    size: usize,
    recs: Ghost<Seq<Rec>>,
}

/// A buffer with this magic number that holds the records, with a sentinel behind them.
pub open spec fn is_image(b: Seq<u8>, magic: u32, rs: Seq<Rec>) -> bool {
    &&& b.len() >= HEADER_SIZE
    &&& le::u32_at(b, 0) == magic
    &&& holds(b, rs)
    &&& at_end(b, HEADER_SIZE + encode_all(rs).len())
}

/// Whether a buffer can be read as a log with this magic number.
pub open spec fn valid_image(b: Seq<u8>, magic: u32) -> bool {
    b.len() >= HEADER_SIZE && le::u32_at(b, 0) == magic && parse(b, HEADER_SIZE as int) is Some
}

/// The records of a buffer.
pub open spec fn image_recs(b: Seq<u8>) -> Seq<Rec> {
    parse(b, HEADER_SIZE as int)->Some_0
}

// ---- files whose last record is blank or cut off --------------------------

/// Blank bytes: no value size, and no key size behind it.
pub open spec fn blank(b: Seq<u8>, at: int) -> bool {
    &&& at + 4 <= b.len()
    &&& le::u32_at(b, at) == 0
    &&& at + 8 > b.len() || le::u32_at(b, at + 4) == 0
}

/// A record that is cut off before its key size.
pub open spec fn cut_off(b: Seq<u8>, at: int) -> bool {
    let v = le::u32_at(b, at);
    &&& at + 4 <= b.len()
    &&& at + 8 + (if v == TOMBSTONE {
        0
    } else {
        v as int
    }) > b.len()
}

/// Where the records from `at` on run into blank bytes or one that is cut off, if they do.
pub open spec fn stops_at(b: Seq<u8>, at: int) -> Option<int>
    decreases b.len() - at,
{
    if at_end(b, at) {
        None
    } else if blank(b, at) || cut_off(b, at) {
        Some(at)
    } else {
        match parse_one(b, at) {
            None => None,
            Some((r, next)) => if next <= at {
                None
            } else {
                stops_at(b, next)
            },
        }
    }
}

/// The bytes with a sentinel where the records run into blank bytes or one that is cut off.
pub open spec fn ended(b: Seq<u8>) -> Seq<u8> {
    match stops_at(b, HEADER_SIZE as int) {
        Some(at) => le::splice(b, at, le::le4(SENTINEL)),
        None => b,
    }
}

/// A record that blank bytes cannot be taken for.
pub open spec fn has_name(r: Rec) -> bool {
    match r {
        Rec::Put(k, v) => k.len() + v.len() > 0,
        Rec::Del(k) => true,
    }
}

/// No record can be taken for blank bytes.
pub open spec fn named(rs: Seq<Rec>) -> bool {
    forall|i: int| 0 <= i < rs.len() ==> has_name(#[trigger] rs[i])
}

proof fn lemma_stops_behind(b: Seq<u8>, at: int)
    ensures
        stops_at(b, at) matches Some(x) ==> at <= x && x + 4 <= b.len(),
    decreases b.len() - at,
{
    if !at_end(b, at) && !blank(b, at) && !cut_off(b, at) {
        match parse_one(b, at) {
            None => {},
            Some((r, next)) => {
                if next > at {
                    lemma_stops_behind(b, next);
                }
            },
        }
    }
}

/// Records read up to there cannot be taken for blank bytes.
proof fn lemma_ended_named(b: Seq<u8>, at: int, b2: Seq<u8>)
    requires
        0 <= at,
        match stops_at(b, at) {
            Some(x) => b2 == le::splice(b, x, le::le4(SENTINEL)),
            None => b2 == b,
        },
    ensures
        parse(b2, at) is Some ==> named(parse(b2, at)->Some_0),
    decreases b.len() - at,
{
    lemma_stops_behind(b, at);
    if at_end(b, at) {
    } else if blank(b, at) || cut_off(b, at) {
        assert forall|i: int| 0 <= i < 4 implies #[trigger] le::le4(SENTINEL)[i] == b2[at + i] by {}
        le::lemma_le4(b2, at, SENTINEL);
    } else {
        match parse_one(b, at) {
            None => {},
            Some((r, next)) => {
                if next > at {
                    lemma_stops_behind(b, next);
                    lemma_ended_named(b, next, b2);
                    assert(b2.len() == b.len());
                    assert forall|i: int| at <= i < next implies b2[i] == b[i] by {}
                    assert forall|i: int| 0 <= i < 4 implies #[trigger] b2[at + i] == b[at + i] by {}
                    le::lemma_u32_same(b2, b, at, at);
                    let v = le::u32_at(b, at) as int;
                    let o = if le::u32_at(b, at) == TOMBSTONE {
                        at + 4
                    } else {
                        at + 4 + v
                    };
                    assert forall|i: int| 0 <= i < 4 implies #[trigger] b2[o + i] == b[o + i] by {}
                    le::lemma_u32_same(b2, b, o, o);
                    assert(b2.subrange(o + 4, next) =~= b.subrange(o + 4, next));
                    if le::u32_at(b, at) != TOMBSTONE {
                        assert(b2.subrange(at + 4, at + 4 + v) =~= b.subrange(at + 4, at + 4 + v));
                    }
                    assert(parse_one(b2, at) == Some((r, next)));
                    if parse(b2, at) is Some {
                        let rest = parse(b2, next)->Some_0;
                        assert forall|i: int| 0 <= i < parse(b2, at)->Some_0.len() implies has_name(
                            #[trigger] parse(b2, at)->Some_0[i],
                        ) by {
                            if i > 0 {
                                assert((seq![r] + rest)[i] == rest[i - 1]);
                            } else {
                                assert((seq![r] + rest)[0] == r);
                            }
                        }
                    }
                }
            },
        }
    }
}

/// The records of a file that is read up to there are none that blank bytes could be taken for.
pub proof fn lemma_ended(b: Seq<u8>)
    ensures
        parse(ended(b), HEADER_SIZE as int) is Some ==> named(image_recs(ended(b))),
        ended(b).len() == b.len(),
        stops_at(b, HEADER_SIZE as int) matches Some(x) ==> HEADER_SIZE <= x && x + 4 <= b.len(),
{
    lemma_ended_named(b, HEADER_SIZE as int, ended(b));
    lemma_stops_behind(b, HEADER_SIZE as int);
}

/// Records that cannot be taken for blank bytes are read to their end.
proof fn lemma_never_stops(b: Seq<u8>, rs: Seq<Rec>, i: int)
    requires
        holds(b, rs),
        at_end(b, HEADER_SIZE + encode_all(rs).len()),
        named(rs),
        0 <= i <= rs.len(),
    ensures
        stops_at(b, offset_of(rs, i)) is None,
    decreases rs.len() - i,
{
    if i == rs.len() {
        assert(rs.take(i) =~= rs);
    } else {
        lemma_holds_at(b, rs, i);
        lemma_never_stops(b, rs, i + 1);
        assert(has_name(rs[i]));
    }
}

/// An image of such records is read as it is.
pub proof fn lemma_image_ended(b: Seq<u8>, magic: u32, rs: Seq<Rec>)
    requires
        is_image(b, magic, rs),
        named(rs),
    ensures
        ended(b) == b,
{
    lemma_never_stops(b, rs, 0);
    assert(rs.take(0) =~= Seq::<Rec>::empty());
}

/// A file whose records run into blank bytes, or into a record that is cut off before its key size, is
/// read up to there.
pub proof fn what_was_not_written_is_left_out(b: Seq<u8>, magic: u32, rs: Seq<Rec>)
    requires
        b.len() >= HEADER_SIZE,
        le::u32_at(b, 0) == magic,
        holds(b, rs),
        named(rs),
        4 + encode_all(rs).len() + 4 <= b.len(),
        ({
            let at = 4 + encode_all(rs).len() as int;
            let v = le::u32_at(b, at);
            ||| v == 0 && (at + 8 > b.len() || le::u32_at(b, at + 4) == 0)
            ||| v == TOMBSTONE && at + 8 > b.len()
            ||| v < SENTINEL && at + 8 + v > b.len()
        }),
    ensures
        valid_image(ended(b), magic),
        image_recs(ended(b)) == rs,
{
    let at = HEADER_SIZE + encode_all(rs).len() as int;
    let e = ended(b);
    lemma_stops_there(b, rs, 0);
    assert(rs.take(0) =~= Seq::<Rec>::empty());
    assert(e == le::splice(b, at, le::le4(SENTINEL)));
    assert forall|i: int| 0 <= i < 4 implies #[trigger] le::le4(SENTINEL)[i] == e[at + i] by {}
    le::lemma_le4(e, at, SENTINEL);
    assert forall|i: int| 0 <= i < at implies b[i] == #[trigger] e[i] by {}
    lemma_holds_same(b, e, rs);
    assert(le::u32_at(e, 0) == magic) by {
        reveal(le::u32_at);
        assert(e[0] == b[0] && e[1] == b[1] && e[2] == b[2] && e[3] == b[3]);
    }
    lemma_image(e, magic, rs);
}

proof fn lemma_stops_there(b: Seq<u8>, rs: Seq<Rec>, i: int)
    requires
        holds(b, rs),
        named(rs),
        0 <= i <= rs.len(),
        ({
            let at = HEADER_SIZE + encode_all(rs).len() as int;
            !at_end(b, at) && (blank(b, at) || cut_off(b, at))
        }),
    ensures
        stops_at(b, offset_of(rs, i)) == Some(HEADER_SIZE + encode_all(rs).len() as int),
    decreases rs.len() - i,
{
    if i == rs.len() {
        assert(rs.take(i) =~= rs);
    } else {
        lemma_holds_at(b, rs, i);
        lemma_stops_there(b, rs, i + 1);
        assert(has_name(rs[i]));
    }
}

/// What such records leave has no entry without key and value.
pub proof fn lemma_named_entry(rs: Seq<Rec>, k: Seq<u8>)
    requires
        named(rs),
        kv_of(rs).contains_key(k),
    ensures
        k.len() + kv_of(rs)[k].len() > 0,
    decreases rs.len(),
{
    let p = rs.drop_last();
    assert(has_name(rs[rs.len() - 1]));
    assert forall|i: int| 0 <= i < p.len() implies has_name(#[trigger] p[i]) by {
        assert(has_name(rs[i]));
    }
    match rs.last() {
        Rec::Put(key, v) => {
            if key != k {
                lemma_named_entry(p, k);
            }
        },
        Rec::Del(key) => {
            lemma_named_entry(p, k);
        },
    }
}

/// Puts a sentinel where the records run into blank bytes or one that is cut off.
pub fn end_records(bytes: Vec<u8>) -> (r: Vec<u8>)
    requires
        bytes@.len() + 4 <= MAX_LOG,
    ensures
        r@ == ended(bytes@),
{
    let ghost b = bytes@;
    let mut r: Vec<u8> = bytes;
    let len: usize = r.len();
    let mut at: usize = HEADER_SIZE;
    if len < HEADER_SIZE {
        return r;
    }
    while len - at >= 4
        invariant
            r@ == b,
            b == bytes@,
            len == b.len(),
            len + 4 <= MAX_LOG,
            HEADER_SIZE <= at <= len,
            stops_at(b, HEADER_SIZE as int) == stops_at(b, at as int),
        decreases len - at,
    {
        let v: u32 = le::rd_u32(r.as_slice(), at);
        if v == SENTINEL {
            return r;
        }
        if v == 0 && (len - at < 8 || le::rd_u32(r.as_slice(), at + 4) == 0) {
            le::wr_u32(&mut r, at, SENTINEL);
            return r;
        }
        let skip: usize = if v == TOMBSTONE { 0 } else { v as usize };
        if len - at < 8 || skip > len - at - 8 {
            le::wr_u32(&mut r, at, SENTINEL);
            return r;
        }
        let n: u32 = le::rd_u32(r.as_slice(), at + 4 + skip);
        let rest: usize = len - at - 8 - skip;
        if n as usize > rest || 8 + skip as u64 + n as u64 > u32::MAX as u64 {
            return r;
        }
        at = at + 8 + skip + n as usize;
    }
    r
}

/// An image can be read, and its records are those that it holds.
pub proof fn lemma_image(b: Seq<u8>, magic: u32, rs: Seq<Rec>)
    requires
        is_image(b, magic, rs),
    ensures
        valid_image(b, magic),
        image_recs(b) == rs,
{
    lemma_parse_all(b, rs, 0);
    assert(rs.take(0) =~= Seq::<Rec>::empty());
    assert(rs.skip(0) =~= rs);
}

/// What is read of a buffer is what it holds.
proof fn lemma_parse_step(b: Seq<u8>, at: int, rs: Seq<Rec>, r: Rec)
    requires
        holds(b, rs),
        at == HEADER_SIZE + encode_all(rs).len(),
        at + 4 <= b.len(),
        parse_one(b, at) matches Some(p) && p.0 == r && p.1 <= b.len(),
    ensures
        holds(b, rs.push(r)),
        parse_one(b, at)->Some_0.1 == HEADER_SIZE + encode_all(rs.push(r)).len(),
        rec_ok(r),
{
    let next = parse_one(b, at)->Some_0.1;
    assert(rs.push(r).drop_last() =~= rs);
    lemma_encode_len(r);
    assert(b.subrange(at, next) =~= encode(r)) by {
        match r {
            Rec::Put(k, v) => {
                le::lemma_le4_inverse(b, at);
                le::lemma_le4_inverse(b, at + 4 + v.len());
            },
            Rec::Del(k) => {
                le::lemma_le4_inverse(b, at);
                le::lemma_le4_inverse(b, at + 4);
            },
        }
    }
    assert(b.subrange(HEADER_SIZE as int, next) =~= b.subrange(HEADER_SIZE as int, at) + b.subrange(at, next));
    assert forall|i: int| 0 <= i < rs.push(r).len() implies rec_ok(#[trigger] rs.push(r)[i]) by {
        if i < rs.len() {
            assert(rs.push(r)[i] == rs[i]);
        }
    }
}

proof fn lemma_parse_rest(b: Seq<u8>, at: int, r: Rec, next: int)
    requires
        !at_end(b, at),
        parse_one(b, at) == Some((r, next)),
        next > at,
    ensures
        parse(b, at) is Some <==> parse(b, next) is Some,
        parse(b, at) is Some ==> parse(b, at)->Some_0 == seq![r] + parse(b, next)->Some_0,
{
}

/// Bytes that hold records still do where only what follows them changes.
pub proof fn lemma_holds_same(a: Seq<u8>, b: Seq<u8>, rs: Seq<Rec>)
    requires
        holds(a, rs),
        HEADER_SIZE + encode_all(rs).len() <= b.len(),
        forall|i: int| HEADER_SIZE <= i < HEADER_SIZE + encode_all(rs).len() ==> a[i] == #[trigger] b[i],
    ensures
        holds(b, rs),
{
    let n = encode_all(rs).len() as int;
    assert(a.subrange(4, 4 + n) =~= b.subrange(4, 4 + n));
}

impl Log {
    /// The records, oldest first.
    pub closed spec fn recs(&self) -> Seq<Rec> {
        self.recs@
    }

    /// The buffer.
    pub closed spec fn image_view(&self) -> Seq<u8> {
        self.bytes@
    }

    /// Bytes in use.
    pub open spec fn used(&self) -> int {
        HEADER_SIZE + encode_all(self.recs()).len()
    }

    pub closed spec fn wf(&self, magic: u32) -> bool {
        &&& is_image(self.bytes@, magic, self.recs@)
        &&& self.size == self.used()
        &&& self.size + 4 <= MAX_LOG
        &&& self.size + 4 <= self.bytes@.len()
    }

    /// What a log promises to its users.
    pub proof fn lemma_wf(&self, magic: u32)
        requires
            self.wf(magic),
        ensures
            is_image(self.image_view(), magic, self.recs()),
            self.used() + 4 <= MAX_LOG,
            recs_ok(self.recs()),
    {
    }

    /// An empty log with room for `capacity` bytes.
    pub fn create(magic: u32, capacity: usize) -> (r: Self)
        requires
            capacity <= MAX_LOG,
        ensures
            r.wf(magic),
            r.recs() == Seq::<Rec>::empty(),
            r.image_view().len() == if capacity < 8 { 8 } else { capacity as int },
    {
        let n: usize = if capacity < 8 { 8 } else { capacity };
        let mut bytes: Vec<u8> = Vec::new();
        bytes.resize(n, 0);
        le::wr_u32(&mut bytes, 0, magic);
        let ghost before = bytes@;
        le::wr_u32(&mut bytes, HEADER_SIZE, SENTINEL);
        proof {
            le::lemma_u32_same(before, bytes@, 0, 0);
            assert(bytes@.subrange(4, 4) =~= encode_all(Seq::<Rec>::empty()));
        }
        Log { bytes, size: HEADER_SIZE, recs: Ghost(Seq::empty()) }
    }

    /// Reads a log from its buffer. Fails where the magic number is another one, or where a
    /// record is cut off.
    pub fn open(image: Vec<u8>, magic: u32) -> (r: Result<Self, StorageError>)
        requires
            image@.len() + 4 <= MAX_LOG,
        ensures
            match r {
                Ok(l) => valid_image(image@, magic) && l.wf(magic) && l.recs() == image_recs(image@),
                Err(e) => !valid_image(image@, magic) && e == StorageError::InvalidData,
            },
    {
        let mut bytes: Vec<u8> = image;
        let n: usize = bytes.len();
        if n < HEADER_SIZE {
            return Err(StorageError::InvalidData);
        }
        if le::rd_u32(&bytes, 0) != magic {
            return Err(StorageError::InvalidData);
        }
        let ghost img = bytes@;
        let mut at: usize = HEADER_SIZE;
        let ghost mut rs: Seq<Rec> = Seq::empty();
        proof {
            assert(bytes@.subrange(4, 4) =~= encode_all(rs));
            assert(parse(img, 4) is Some ==> rs + parse(img, 4)->Some_0 =~= parse(img, 4)->Some_0);
        }
        while n - at >= 4 && le::rd_u32(&bytes, at) != SENTINEL
            invariant
                bytes@ == img,
                img == image@,
                n == img.len(),
                HEADER_SIZE <= at <= n,
                at == HEADER_SIZE + encode_all(rs).len(),
                holds(img, rs),
                parse(img, 4) is Some <==> parse(img, at as int) is Some,
                parse(img, 4) is Some ==> rs + parse(img, at as int)->Some_0 == parse(img, 4)->Some_0,
            decreases n - at,
        {
            match read_span(&bytes, at) {
                None => {
                    return Err(StorageError::InvalidData);
                },
                Some(s) => {
                    let ghost r = parse_one(img, at as int)->Some_0.0;
                    proof {
                        lemma_parse_step(img, at as int, rs, r);
                        lemma_parse_rest(img, at as int, r, s.key_end as int);
                        if parse(img, 4) is Some {
                            let rest = parse(img, s.key_end as int)->Some_0;
                            assert(rs + (seq![r] + rest) =~= rs.push(r) + rest);
                        }
                        rs = rs.push(r);
                    }
                    at = s.key_end;
                },
            }
        }
        proof {
            assert(parse(img, at as int) == Some(Seq::<Rec>::empty()));
            assert(rs + Seq::<Rec>::empty() =~= rs);
        }
        if n - at < 4 {
            bytes.resize(at + 4, 0);
            proof {
                assert forall|i: int| 0 <= i < n implies img[i] == #[trigger] bytes@[i] by {
                    assert(bytes@.subrange(0, n as int)[i] == bytes@[i]);
                }
                le::lemma_u32_same(img, bytes@, 0, 0);
                lemma_holds_same(img, bytes@, rs);
            }
            let ghost before = bytes@;
            le::wr_u32(&mut bytes, at, SENTINEL);
            proof {
                le::lemma_u32_same(before, bytes@, 0, 0);
                lemma_holds_same(before, bytes@, rs);
            }
        }
        Ok(Log { bytes, size: at, recs: Ghost(rs) })
    }

    /// The buffer.
    pub fn image(&self) -> (r: &Vec<u8>)
        ensures
            r@ == self.image_view(),
    {
        &self.bytes
    }

    /// Bytes in use.
    pub fn size(&self, Ghost(magic): Ghost<u32>) -> (r: u64)
        requires
            self.wf(magic),
        ensures
            r == self.used(),
    {
        self.size as u64
    }

    /// Whether `n` more bytes fit.
    pub open spec fn room(&self, n: int) -> bool {
        self.used() + n + 4 <= MAX_LOG
    }

    /// Writes the bytes of a record, followed by the sentinel, behind the last record.
    fn append(&mut self, rec: &Vec<u8>, Ghost(magic): Ghost<u32>, Ghost(r): Ghost<Rec>)
        requires
            old(self).wf(magic),
            rec@ == encode(r) + le::le4(SENTINEL),
            rec_ok(r),
            old(self).room(rec_size(r)),
        ensures
            final(self).wf(magic),
            final(self).recs() == old(self).recs().push(r),
            final(self).image_view().len() >= old(self).image_view().len(),
    {
        let ghost rs = self.recs@;
        let ghost b0 = self.bytes@;
        proof {
            lemma_encode_len(r);
        }
        let cap: usize = self.bytes.len();
        let need: usize = self.size + rec.len();
        if need > cap {
            let twice: usize = if cap <= MAX_LOG { 2 * cap } else { cap };
            self.bytes.resize(if twice < need { need } else { twice }, 0);
        }
        let ghost b1 = self.bytes@;
        proof {
            assert forall|i: int| 0 <= i < b0.len() implies b0[i] == #[trigger] b1[i] by {
                if need > cap {
                    assert(b1.subrange(0, b0.len() as int)[i] == b1[i]);
                }
            }
        }
        le::write_at(&mut self.bytes, self.size, rec);
        let at: usize = self.size;
        self.size = need - 4;
        self.recs = Ghost(rs.push(r));
        proof {
            let b2 = self.bytes@;
            let e = encode(r);
            let n = encode_all(rs).len() as int;
            assert(b2 == le::splice(b1, at as int, rec@));
            le::lemma_u32_same(b0, b2, 0, 0);
            assert(rs.push(r).drop_last() =~= rs);
            assert(b2.subrange(4, 4 + n) =~= b0.subrange(4, 4 + n));
            assert(b2.subrange(4 + n, 4 + n + e.len()) =~= e);
            assert(b2.subrange(4, 4 + n + e.len()) =~= b2.subrange(4, 4 + n) + b2.subrange(4 + n, 4 + n + e.len()));
            assert forall|i: int| 0 <= i < 4 implies #[trigger] le::le4(SENTINEL)[i] == b2[self.size + i] by {
                assert(rec@[e.len() + i] == le::le4(SENTINEL)[i]);
            }
            le::lemma_le4(b2, self.size as int, SENTINEL);
            assert forall|i: int| 0 <= i < rs.push(r).len() implies rec_ok(#[trigger] rs.push(r)[i]) by {
                if i < rs.len() {
                    assert(rs.push(r)[i] == rs[i]);
                }
            }
        }
    }

    /// Appends a put, and gives its offset.
    pub fn put(&mut self, key: &[u8], value: &[u8], Ghost(magic): Ghost<u32>) -> (at: usize)
        requires
            old(self).wf(magic),
            8 + key@.len() + value@.len() <= u32::MAX,
            old(self).room(8 + key@.len() as int + value@.len()),
        ensures
            final(self).wf(magic),
            final(self).recs() == old(self).recs().push(Rec::Put(key@, value@)),
            at == old(self).used(),
            final(self).image_view().len() >= old(self).image_view().len(),
    {
        let at: usize = self.size;
        let mut rec: Vec<u8> = Vec::with_capacity(12 + key.len() + value.len());
        le::push_u32(&mut rec, value.len() as u32);
        le::push_bytes(&mut rec, value);
        le::push_u32(&mut rec, key.len() as u32);
        le::push_bytes(&mut rec, key);
        assert(rec@ =~= encode(Rec::Put(key@, value@)));
        le::push_u32(&mut rec, SENTINEL);
        self.append(&rec, Ghost(magic), Ghost(Rec::Put(key@, value@)));
        at
    }

    /// Appends a tombstone.
    pub fn del(&mut self, key: &[u8], Ghost(magic): Ghost<u32>)
        requires
            old(self).wf(magic),
            8 + key@.len() <= u32::MAX,
            old(self).room(8 + key@.len() as int),
        ensures
            final(self).wf(magic),
            final(self).recs() == old(self).recs().push(Rec::Del(key@)),
    {
        let mut rec: Vec<u8> = Vec::with_capacity(12 + key.len());
        le::push_u32(&mut rec, TOMBSTONE);
        le::push_u32(&mut rec, key.len() as u32);
        le::push_bytes(&mut rec, key);
        assert(rec@ =~= encode(Rec::Del(key@)));
        le::push_u32(&mut rec, SENTINEL);
        self.append(&rec, Ghost(magic), Ghost(Rec::Del(key@)));
    }

    /// Drops all records. The buffer keeps its length.
    pub fn reset(&mut self, Ghost(magic): Ghost<u32>)
        requires
            old(self).wf(magic),
        ensures
            final(self).wf(magic),
            final(self).recs() == Seq::<Rec>::empty(),
            final(self).image_view().len() == old(self).image_view().len(),
    {
        let ghost b0 = self.bytes@;
        le::wr_u32(&mut self.bytes, HEADER_SIZE, SENTINEL);
        self.size = HEADER_SIZE;
        self.recs = Ghost(Seq::empty());
        proof {
            le::lemma_u32_same(b0, self.bytes@, 0, 0);
            assert(self.bytes@.subrange(4, 4) =~= encode_all(Seq::<Rec>::empty()));
        }
    }

    /// Cuts the buffer off behind the sentinel, or at `capacity` where that is further on.
    pub fn trim(&mut self, capacity: usize, Ghost(magic): Ghost<u32>)
        requires
            old(self).wf(magic),
            capacity <= MAX_LOG,
        ensures
            final(self).wf(magic),
            final(self).recs() == old(self).recs(),
            final(self).image_view().len() == (if old(self).used() + 4 < capacity {
                capacity as int
            } else {
                old(self).used() + 4
            }),
    {
        let ghost b0 = self.bytes@;
        let least: usize = self.size + 4;
        let n: usize = if least < capacity { capacity } else { least };
        self.bytes.resize(n, 0);
        proof {
            let b1 = self.bytes@;
            assert forall|i: int| 0 <= i < self.size + 4 implies b0[i] == #[trigger] b1[i] by {
                if n > b0.len() {
                    assert(b1.subrange(0, b0.len() as int)[i] == b1[i]);
                }
            }
            le::lemma_u32_same(b0, b1, 0, 0);
            le::lemma_u32_same(b0, b1, self.size as int, self.size as int);
            lemma_holds_same(b0, b1, self.recs@);
        }
    }

    /// The parts of record `i`, which starts at `at`.
    pub fn span(&self, at: usize, Ghost(magic): Ghost<u32>, Ghost(i): Ghost<int>) -> (s: Span)
        requires
            self.wf(magic),
            0 <= i < self.recs().len(),
            at == offset_of(self.recs(), i),
        ensures
            span_of(self.image_view(), at as int, s),
            self.recs()[i] == if s.live {
                Rec::Put(
                    self.image_view().subrange(s.key_start as int, s.key_end as int),
                    self.image_view().subrange(s.value_start as int, s.value_end as int),
                )
            } else {
                Rec::Del(self.image_view().subrange(s.key_start as int, s.key_end as int))
            },
            s.key_end == offset_of(self.recs(), i + 1),
    {
        proof {
            lemma_holds_at(self.bytes@, self.recs@, i);
        }
        match read_span(&self.bytes, at) {
            Some(s) => s,
            None => {
                assert(false);
                Span { live: false, value_start: 0, value_end: 0, key_start: 0, key_end: 0 }
            },
        }
    }
}

} // verus!
