//! Length-prefixed frames: `[length u32][bytes]`, one after the other.

use crate::utils::le;
use vstd::prelude::*;

verus! {

/// The bytes of a frame.
pub open spec fn frame(r: Seq<u8>) -> Seq<u8> {
    le::le4(r.len() as u32) + r
}

/// The bytes of frames one after the other.
pub open spec fn frames(rs: Seq<Seq<u8>>) -> Seq<u8>
    decreases rs.len(),
{
    if rs.len() == 0 {
        Seq::empty()
    } else {
        frames(rs.drop_last()) + frame(rs.last())
    }
}

/// All frames have lengths that fit.
pub open spec fn frames_ok(rs: Seq<Seq<u8>>) -> bool {
    forall|i: int| 0 <= i < rs.len() ==> (#[trigger] rs[i]).len() <= u32::MAX
}

/// A whole frame starts at `at`.
pub open spec fn whole_at(b: Seq<u8>, at: int) -> bool {
    at + 4 <= b.len() && at + 4 + le::u32_at(b, at) <= b.len()
}

/// The whole frames from `at` on, up to the first that is cut off.
pub open spec fn scan(b: Seq<u8>, at: int) -> Seq<Seq<u8>>
    decreases b.len() - at,
{
    if whole_at(b, at) {
        let n = le::u32_at(b, at) as int;
        seq![b.subrange(at + 4, at + 4 + n)] + scan(b, at + 4 + n)
    } else {
        Seq::empty()
    }
}

/// The frames stand in the buffer from `at` on.
pub open spec fn stand_at(b: Seq<u8>, at: int, rs: Seq<Seq<u8>>) -> bool {
    &&& 0 <= at
    &&& at + frames(rs).len() <= b.len()
    &&& b.subrange(at, at + frames(rs).len()) == frames(rs)
    &&& frames_ok(rs)
}

pub proof fn lemma_take(rs: Seq<Seq<u8>>, i: int)
    requires
        0 <= i < rs.len(),
    ensures
        frames(rs.take(i + 1)) == frames(rs.take(i)) + frame(rs[i]),
        frames(rs.take(i + 1)).len() == frames(rs.take(i)).len() + 4 + rs[i].len(),
{
    assert(rs.take(i + 1).drop_last() =~= rs.take(i));
    assert(rs.take(i + 1).last() == rs[i]);
}

pub proof fn lemma_append(a: Seq<Seq<u8>>, b: Seq<Seq<u8>>)
    ensures
        frames(a + b) == frames(a) + frames(b),
    decreases b.len(),
{
    if b.len() == 0 {
        assert(a + b =~= a);
        assert(frames(a) + frames(b) =~= frames(a));
    } else {
        assert((a + b).drop_last() =~= a + b.drop_last());
        lemma_append(a, b.drop_last());
        assert(frames(a) + (frames(b.drop_last()) + frame(b.last())) =~= (frames(a) + frames(b.drop_last())) + frame(
            b.last(),
        ));
    }
}

/// The first frames take no more than all of them.
pub proof fn lemma_prefix(rs: Seq<Seq<u8>>, i: int)
    requires
        0 <= i <= rs.len(),
    ensures
        frames(rs.take(i)).len() <= frames(rs).len(),
        4 * rs.len() <= frames(rs).len(),
    decreases rs.len(),
{
    if i < rs.len() {
        let p = rs.drop_last();
        assert(p.take(i) =~= rs.take(i));
        lemma_prefix(p, i);
    } else {
        assert(rs.take(i) =~= rs);
        if rs.len() > 0 {
            lemma_prefix(rs.drop_last(), rs.len() - 1);
        }
    }
}

/// Frame `i` can be read in place.
pub proof fn lemma_frame_at(b: Seq<u8>, at: int, rs: Seq<Seq<u8>>, i: int)
    requires
        stand_at(b, at, rs),
        0 <= i < rs.len(),
    ensures
        ({
            let o = at + frames(rs.take(i)).len();
            &&& whole_at(b, o)
            &&& le::u32_at(b, o) == rs[i].len()
            &&& b.subrange(o + 4, o + 4 + rs[i].len()) == rs[i]
            &&& o + 4 + rs[i].len() == at + frames(rs.take(i + 1)).len()
            &&& at + frames(rs.take(i + 1)).len() <= at + frames(rs).len()
        }),
{
    lemma_take(rs, i);
    lemma_prefix(rs, i + 1);
    lemma_append(rs.take(i + 1), rs.skip(i + 1));
    assert(rs.take(i + 1) + rs.skip(i + 1) =~= rs);
    let pre = frames(rs.take(i));
    let o = at + pre.len();
    let n = rs[i].len() as int;
    let f = frame(rs[i]);
    let all = frames(rs);
    assert(all == (pre + f) + frames(rs.skip(i + 1)));
    assert forall|j: int| 0 <= j < 4 + n implies #[trigger] b[o + j] == f[j] by {
        assert(b.subrange(at, at + all.len())[pre.len() + j] == b[o + j]);
        assert(all[pre.len() + j] == f[j]);
    }
    assert(rs[i].len() <= u32::MAX);
    assert forall|j: int| 0 <= j < 4 implies #[trigger] le::le4(n as u32)[j] == b[o + j] by {
        assert(b[o + j] == f[j]);
    }
    le::lemma_le4(b, o, n as u32);
    assert(b.subrange(o + 4, o + 4 + n) =~= rs[i]) by {
        assert forall|j: int| 0 <= j < n implies #[trigger] b.subrange(o + 4, o + 4 + n)[j] == rs[i][j] by {
            assert(b[o + (4 + j)] == f[4 + j]);
        }
    }
}

/// Scanning gives the frames back, where what follows them is no whole frame.
pub proof fn lemma_scan(b: Seq<u8>, at: int, rs: Seq<Seq<u8>>, i: int)
    requires
        stand_at(b, at, rs),
        !whole_at(b, at + frames(rs).len()),
        0 <= i <= rs.len(),
    ensures
        scan(b, at + frames(rs.take(i)).len()) == rs.skip(i),
    decreases rs.len() - i,
{
    if i == rs.len() {
        assert(rs.take(i) =~= rs);
        assert(rs.skip(i) =~= Seq::empty());
    } else {
        lemma_frame_at(b, at, rs, i);
        lemma_scan(b, at, rs, i + 1);
        assert(seq![rs[i]] + rs.skip(i + 1) =~= rs.skip(i));
    }
}

/// What is scanned stands in the buffer.
pub proof fn lemma_scan_stands(b: Seq<u8>, at: int)
    requires
        0 <= at <= b.len(),
    ensures
        stand_at(b, at, scan(b, at)),
        !whole_at(b, at + frames(scan(b, at)).len()),
    decreases b.len() - at,
{
    if whole_at(b, at) {
        let n = le::u32_at(b, at) as int;
        let first = b.subrange(at + 4, at + 4 + n);
        let rest = scan(b, at + 4 + n);
        let all = seq![first] + rest;
        lemma_scan_stands(b, at + 4 + n);
        lemma_append(seq![first], rest);
        assert(seq![first].drop_last() =~= Seq::<Seq<u8>>::empty());
        assert(frames(Seq::<Seq<u8>>::empty()) =~= Seq::<u8>::empty());
        assert(frames(seq![first]) =~= frame(first));
        le::lemma_le4_inverse(b, at);
        assert(b.subrange(at, at + 4 + n) =~= frame(first));
        let m = frames(rest).len() as int;
        assert(b.subrange(at, at + 4 + n + m) =~= b.subrange(at, at + 4 + n) + b.subrange(at + 4 + n, at + 4 + n + m));
        assert forall|i: int| 0 <= i < all.len() implies (#[trigger] all[i]).len() <= u32::MAX by {
            if i > 0 {
                assert(all[i] == rest[i - 1]);
            }
        }
    } else {
        assert(b.subrange(at, at) =~= frames(Seq::<Seq<u8>>::empty()));
    }
}

/// Appends a frame.
pub fn push_frame(b: &mut Vec<u8>, r: &[u8])
    requires
        r@.len() <= u32::MAX,
    ensures
        final(b)@ == old(b)@ + frame(r@),
{
    le::push_u32(b, r.len() as u32);
    le::push_bytes(b, r);
    assert(b@ =~= old(b)@ + frame(r@));
}

/// Where the frame that starts at `at` ends, or `None` where it is cut off.
pub fn frame_end(b: &[u8], at: usize) -> (r: Option<usize>)
    ensures
        match r {
            Some(end) => whole_at(b@, at as int) && end == at + 4 + le::u32_at(b@, at as int),
            None => !whole_at(b@, at as int),
        },
{
    match le::read_u32_le(b, at) {
        None => None,
        Some(n) => {
            if b.len() - at - 4 < n as usize {
                None
            } else {
                Some(at + 4 + n as usize)
            }
        },
    }
}

/// Walks over the whole frames from `at` on. Gives how many there are and where they end.
pub fn count_frames(b: &[u8], at: usize) -> (r: (u64, usize))
    requires
        at <= b@.len(),
    ensures
        r.0 == scan(b@, at as int).len(),
        r.1 == at + frames(scan(b@, at as int)).len(),
        r.1 <= b@.len(),
{
    let mut n: u64 = 0;
    let mut cur: usize = at;
    let ghost all = scan(b@, at as int);
    proof {
        lemma_scan_stands(b@, at as int);
        assert(all.take(0) =~= Seq::empty());
        assert(all.skip(0) =~= all);
    }
    loop
        invariant_except_break
            n <= all.len(),
            at <= cur <= b@.len(),
            cur == at + frames(all.take(n as int)).len(),
            all == scan(b@, at as int),
            stand_at(b@, at as int, all),
            !whole_at(b@, at + frames(all).len()),
            4 * n <= cur,
        ensures
            n == all.len(),
            cur == at + frames(all).len(),
            cur <= b@.len(),
        decreases b@.len() - cur,
    {
        proof {
            lemma_scan(b@, at as int, all, n as int);
            if n < all.len() {
                lemma_frame_at(b@, at as int, all, n as int);
            } else {
                assert(all.take(n as int) =~= all);
            }
        }
        match frame_end(b, cur) {
            Some(end) => {
                cur = end;
                n = n + 1;
            },
            None => {
                break;
            },
        }
    }
    (n, cur)
}

} // verus!
