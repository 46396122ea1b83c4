//! Little-endian integers at fixed offsets of a byte sequence.

use vstd::prelude::*;

verus! {

/// The little-endian `u16` at offset `o` of `b`.
#[verifier::opaque]
pub open spec fn u16_at(b: Seq<u8>, o: int) -> u16 {
    (b[o] as int + 256 * b[o + 1] as int) as u16
}

/// The little-endian `u32` at offset `o` of `b`.
#[verifier::opaque]
pub open spec fn u32_at(b: Seq<u8>, o: int) -> u32 {
    (b[o] as int + 256 * b[o + 1] as int + 65536 * b[o + 2] as int + 16777216 * b[o + 3] as int) as u32
}

/// The little-endian `u64` at offset `o` of `b`.
#[verifier::opaque]
pub open spec fn u64_at(b: Seq<u8>, o: int) -> u64 {
    (u32_at(b, o) as int + 4294967296 * u32_at(b, o + 4) as int) as u64
}

/// The two bytes of `v`, least significant first.
pub open spec fn le2(v: u16) -> Seq<u8> {
    seq![(v % 256) as u8, (v / 256) as u8]
}

/// The four bytes of `v`, least significant first.
pub open spec fn le4(v: u32) -> Seq<u8> {
    seq![
        (v % 256) as u8,
        ((v / 256) % 256) as u8,
        ((v / 65536) % 256) as u8,
        (v / 16777216) as u8,
    ]
}

/// The eight bytes of `v`, least significant first.
pub open spec fn le8(v: u64) -> Seq<u8> {
    le4((v % 4294967296) as u32) + le4((v / 4294967296) as u32)
}

/// Replaces the bytes of `b` from `o` on by those of `w`.
pub open spec fn splice(b: Seq<u8>, o: int, w: Seq<u8>) -> Seq<u8> {
    Seq::new(b.len(), |i: int| if o <= i < o + w.len() { w[i - o] } else { b[i] })
}

/// An integer read back where it was written is the integer written.
pub proof fn lemma_le2(b: Seq<u8>, o: int, v: u16)
    requires
        b[o] == le2(v)[0],
        b[o + 1] == le2(v)[1],
    ensures
        u16_at(b, o) == v,
{
    reveal(u16_at);
}

/// An integer read back where it was written is the integer written.
pub proof fn lemma_le4(b: Seq<u8>, o: int, v: u32)
    requires
        forall|i: int| 0 <= i < 4 ==> #[trigger] le4(v)[i] == b[o + i],
    ensures
        u32_at(b, o) == v,
{
    reveal(u32_at);
    assert(le4(v)[0] == b[o + 0]);
    assert(le4(v)[1] == b[o + 1]);
    assert(le4(v)[2] == b[o + 2]);
    assert(le4(v)[3] == b[o + 3]);
}

/// An integer read back where it was written is the integer written.
pub proof fn lemma_le8(b: Seq<u8>, o: int, v: u64)
    requires
        forall|i: int| 0 <= i < 8 ==> #[trigger] le8(v)[i] == b[o + i],
    ensures
        u64_at(b, o) == v,
{
    reveal(u64_at);
    let lo = (v % 4294967296) as u32;
    let hi = (v / 4294967296) as u32;
    assert forall|i: int| 0 <= i < 4 implies #[trigger] le4(lo)[i] == b[o + i] by {
        assert(le8(v)[i] == le4(lo)[i]);
    }
    assert forall|i: int| 0 <= i < 4 implies #[trigger] le4(hi)[i] == b[o + 4 + i] by {
        assert(le8(v)[i + 4] == le4(hi)[i]);
        assert(o + (i + 4) == o + 4 + i);
    }
    lemma_le4(b, o, lo);
    lemma_le4(b, o + 4, hi);
}

/// The bytes of an integer that was read are the bytes it was read from.
pub proof fn lemma_le2_inverse(b: Seq<u8>, o: int)
    ensures
        le2(u16_at(b, o))[0] == b[o],
        le2(u16_at(b, o))[1] == b[o + 1],
{
    reveal(u16_at);
}

/// The bytes of an integer that was read are the bytes it was read from.
pub proof fn lemma_le4_inverse(b: Seq<u8>, o: int)
    ensures
        le4(u32_at(b, o))[0] == b[o],
        le4(u32_at(b, o))[1] == b[o + 1],
        le4(u32_at(b, o))[2] == b[o + 2],
        le4(u32_at(b, o))[3] == b[o + 3],
{
    reveal(u32_at);
    let v = u32_at(b, o);
    let hi2 = b[o + 2] as int + 256 * b[o + 3] as int;
    let hi1 = b[o + 1] as int + 256 * hi2;
    assert(v == b[o] as int + 256 * hi1);
    assert(v / 256 == hi1 && v % 256 == b[o]);
    assert(v / 65536 == hi2) by {
        assert(v == (b[o] as int + 256 * b[o + 1] as int) + 65536 * hi2);
    }
    assert(v / 16777216 == b[o + 3]) by {
        assert(v == (b[o] as int + 256 * b[o + 1] as int + 65536 * b[o + 2] as int) + 16777216 * b[o + 3] as int);
    }
}

/// The bytes at `o` are those of the integer read there.
pub proof fn lemma_le8_inverse(b: Seq<u8>, o: int)
    requires
        0 <= o,
        o + 8 <= b.len(),
    ensures
        b.subrange(o, o + 8) == le8(u64_at(b, o)),
{
    lemma_le4_inverse(b, o);
    lemma_le4_inverse(b, o + 4);
    let lo = u32_at(b, o);
    let hi = u32_at(b, o + 4);
    let v = u64_at(b, o);
    assert(v % 4294967296 == lo && v / 4294967296 == hi) by {
        reveal(u64_at);
    }
    let w = le4(lo) + le4(hi);
    assert(le8(v) == w);
    let s = b.subrange(o, o + 8);
    assert forall|i: int| 0 <= i < 8 implies s[i] == w[i] by {
        if i < 4 {
            assert(w[i] == le4(lo)[i]);
        } else {
            assert(w[i] == le4(hi)[i - 4]);
        }
    }
    assert(s =~= w);
}

/// An integer read depends only on the bytes that hold it.
pub proof fn lemma_u16_same(a: Seq<u8>, b: Seq<u8>, oa: int, ob: int)
    requires
        a[oa] == b[ob],
        a[oa + 1] == b[ob + 1],
    ensures
        u16_at(a, oa) == u16_at(b, ob),
{
    reveal(u16_at);
}

/// An integer read depends only on the bytes that hold it.
pub proof fn lemma_u32_same(a: Seq<u8>, b: Seq<u8>, oa: int, ob: int)
    requires
        forall|i: int| 0 <= i < 4 ==> #[trigger] a[oa + i] == b[ob + i],
    ensures
        u32_at(a, oa) == u32_at(b, ob),
{
    reveal(u32_at);
    assert(a[oa + 0] == b[ob + 0]);
    assert(a[oa + 1] == b[ob + 1]);
    assert(a[oa + 2] == b[ob + 2]);
    assert(a[oa + 3] == b[ob + 3]);
}

/// An integer read depends only on the bytes that hold it.
pub proof fn lemma_u64_same(a: Seq<u8>, b: Seq<u8>, oa: int, ob: int)
    requires
        forall|i: int| 0 <= i < 8 ==> #[trigger] a[oa + i] == b[ob + i],
    ensures
        u64_at(a, oa) == u64_at(b, ob),
{
    reveal(u64_at);
    lemma_u32_same(a, b, oa, ob);
    assert forall|i: int| 0 <= i < 4 implies #[trigger] a[oa + 4 + i] == b[ob + 4 + i] by {
        assert(a[oa + (i + 4)] == b[ob + (i + 4)]);
        assert(oa + (i + 4) == oa + 4 + i);
        assert(ob + (i + 4) == ob + 4 + i);
    }
    lemma_u32_same(a, b, oa + 4, ob + 4);
}

/// Reads the `u16` at `o`.
pub fn rd_u16(b: &[u8], o: usize) -> (v: u16)
    requires
        o + 2 <= b@.len(),
    ensures
        v == u16_at(b@, o as int),
{
    proof {
        reveal(u16_at);
    }
    b[o] as u16 + 256 * b[o + 1] as u16
}

/// Reads the `u32` at `o`.
pub fn rd_u32(b: &[u8], o: usize) -> (v: u32)
    requires
        o + 4 <= b@.len(),
    ensures
        v == u32_at(b@, o as int),
{
    proof {
        reveal(u32_at);
    }
    b[o] as u32 + 256 * b[o + 1] as u32 + 65536 * b[o + 2] as u32 + 16777216 * b[o + 3] as u32
}

/// Reads the `u64` at `o`.
pub fn rd_u64(b: &[u8], o: usize) -> (v: u64)
    requires
        o + 8 <= b@.len(),
    ensures
        v == u64_at(b@, o as int),
{
    proof {
        reveal(u64_at);
    }
    assert(b@.len() == b.len());
    rd_u32(b, o) as u64 + 4294967296 * rd_u32(b, o + 4) as u64
}

/// Writes `v` as a `u16` at `o`.
pub fn wr_u16(b: &mut Vec<u8>, o: usize, v: u16)
    requires
        o + 2 <= old(b)@.len(),
    ensures
        final(b)@ == splice(old(b)@, o as int, le2(v)),
        u16_at(final(b)@, o as int) == v,
{
    proof {
        reveal(u16_at);
    }
    assert(b@.len() == b.len());
    b.set(o, (v % 256) as u8);
    b.set(o + 1, (v / 256) as u8);
    assert(b@ =~= splice(old(b)@, o as int, le2(v)));
}

/// Writes `v` as a `u32` at `o`.
pub fn wr_u32(b: &mut Vec<u8>, o: usize, v: u32)
    requires
        o + 4 <= old(b)@.len(),
    ensures
        final(b)@ == splice(old(b)@, o as int, le4(v)),
        u32_at(final(b)@, o as int) == v,
{
    assert(b@.len() == b.len());
    b.set(o, (v % 256) as u8);
    b.set(o + 1, ((v / 256) % 256) as u8);
    b.set(o + 2, ((v / 65536) % 256) as u8);
    b.set(o + 3, (v / 16777216) as u8);
    assert(b@ =~= splice(old(b)@, o as int, le4(v)));
    proof {
        lemma_le4(b@, o as int, v);
    }
}

/// Writes `v` as a `u64` at `o`.
pub fn wr_u64(b: &mut Vec<u8>, o: usize, v: u64)
    requires
        o + 8 <= old(b)@.len(),
    ensures
        final(b)@ == splice(old(b)@, o as int, le8(v)),
        u64_at(final(b)@, o as int) == v,
{
    assert(b@.len() == b.len());
    wr_u32(b, o, (v % 4294967296) as u32);
    wr_u32(b, o + 4, (v / 4294967296) as u32);
    assert(b@ =~= splice(old(b)@, o as int, le8(v)));
    proof {
        lemma_le8(b@, o as int, v);
    }
}

/// Appends `v` as a `u16`.
pub fn push_u16(b: &mut Vec<u8>, v: u16)
    ensures
        final(b)@ == old(b)@ + le2(v),
{
    b.push((v % 256) as u8);
    b.push((v / 256) as u8);
    assert(b@ =~= old(b)@ + le2(v));
}

/// Appends `v` as a `u32`.
pub fn push_u32(b: &mut Vec<u8>, v: u32)
    ensures
        final(b)@ == old(b)@ + le4(v),
{
    b.push((v % 256) as u8);
    b.push(((v / 256) % 256) as u8);
    b.push(((v / 65536) % 256) as u8);
    b.push((v / 16777216) as u8);
    assert(b@ =~= old(b)@ + le4(v));
}

/// Appends `v` as a `u64`.
pub fn push_u64(b: &mut Vec<u8>, v: u64)
    ensures
        final(b)@ == old(b)@ + le8(v),
{
    push_u32(b, (v % 4294967296) as u32);
    push_u32(b, (v / 4294967296) as u32);
    assert(b@ =~= old(b)@ + le8(v));
}

/// Appends the bytes of `w`.
pub fn push_bytes(b: &mut Vec<u8>, w: &[u8])
    ensures
        final(b)@ == old(b)@ + w@,
{
    b.extend_from_slice(w);
    assert(b@ =~= old(b)@ + w@);
}

/// A copy of bytes `lo..hi` of `b`.
pub fn copy_range(b: &[u8], lo: usize, hi: usize) -> (r: Vec<u8>)
    requires
        lo <= hi <= b@.len(),
    ensures
        r@ == b@.subrange(lo as int, hi as int),
{
    let mut r: Vec<u8> = Vec::with_capacity(hi - lo);
    r.extend_from_slice(vstd::slice::slice_subrange(b, lo, hi));
    assert(r@ =~= b@.subrange(lo as int, hi as int));
    r
}

/// Overwrites the bytes of `b` from `o` on by those of `w`.
pub fn write_at(b: &mut Vec<u8>, o: usize, w: &[u8])
    requires
        o + w@.len() <= old(b)@.len(),
    ensures
        final(b)@ == splice(old(b)@, o as int, w@),
{
    assert(b@.len() == b.len());
    let mut i: usize = 0;
    while i < w.len()
        invariant
            i <= w@.len(),
            o + w@.len() <= b.len(),
            b@ == splice(old(b)@, o as int, w@.take(i as int)),
        decreases w.len() - i,
    {
        b.set(o + i, w[i]);
        i = i + 1;
        assert(b@ =~= splice(old(b)@, o as int, w@.take(i as int)));
    }
    assert(w@.take(i as int) =~= w@);
}

/// Reads the `u32` at `o`, or `None` where fewer than four bytes are left.
pub fn read_u32_le(b: &[u8], o: usize) -> (v: Option<u32>)
    ensures
        match v {
            Some(x) => o + 4 <= b@.len() && x == u32_at(b@, o as int),
            None => o + 4 > b@.len(),
        },
{
    if b.len() >= 4 && o <= b.len() - 4 {
        Some(rd_u32(b, o))
    } else {
        None
    }
}

} // verus!
