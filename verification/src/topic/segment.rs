//! The segments of a topic.
//!
//! A segment is a magic number and then records, each with its length before it. Records are
//! appended to the last segment. Segments at the front are dropped once nobody needs them;
//! those that an open cursor stands in stay until it moves on.

use crate::error::StorageError;
use crate::utils::frames;
use crate::utils::key::Key;
use crate::utils::le;
use crate::utils::vecs;
use vstd::prelude::*;

verus! {

/// First four bytes of a segment.
pub const MAGIC: u32 = 0x4349_5054;

pub const HEADER_SIZE: usize = 4;

/// Most bytes that the segments take together.
pub const MAX_BYTES: usize = usize::MAX / 4;

/// A segment in memory.
pub struct Segment {
    base: u64,
    end: u64,
    bytes: Vec<u8>,
    /// Offsets of some records, and where they start.
    sparse: Vec<(u64, u64)>,
    /// Cursors that stand in this segment.
    pins: u64,
    recs: Ghost<Seq<Seq<u8>>>,
}

/// The bytes of a segment with these records.
pub open spec fn segment_bytes(rs: Seq<Seq<u8>>) -> Seq<u8> {
    le::le4(MAGIC) + frames::frames(rs)
}

/// Where record `i` starts.
pub open spec fn start_of(rs: Seq<Seq<u8>>, i: int) -> int {
    HEADER_SIZE + frames::frames(rs.take(i)).len()
}

impl Segment {
    pub closed spec fn base(&self) -> u64 {
        self.base
    }

    pub closed spec fn end(&self) -> u64 {
        self.end
    }

    /// The records.
    pub closed spec fn recs(&self) -> Seq<Seq<u8>> {
        self.recs@
    }

    /// How many cursors stand in it.
    pub closed spec fn pins(&self) -> u64 {
        self.pins
    }

    pub open spec fn pinned(&self) -> bool {
        self.pins() > 0
    }

    /// Bytes that it takes.
    pub open spec fn len(&self) -> int {
        segment_bytes(self.recs()).len() as int
    }

    /// Entry `j` of the sparse index is right.
    spec fn entry_ok(&self, j: int) -> bool {
        let (o, at) = self.sparse@[j];
        &&& self.base <= o <= self.end
        &&& at == start_of(self.recs@, o - self.base)
    }

    pub closed spec fn wf(&self) -> bool {
        &&& self.bytes@ == segment_bytes(self.recs@)
        &&& frames::frames_ok(self.recs@)
        &&& self.end == self.base + self.recs@.len()
        &&& forall|j: int| 0 <= j < self.sparse@.len() ==> #[trigger] self.entry_ok(j)
    }

    /// What a segment promises to its users.
    pub proof fn lemma_wf(&self)
        requires
            self.wf(),
        ensures
            self.end() == self.base() + self.recs().len(),
            frames::frames_ok(self.recs()),
            self.len() == HEADER_SIZE + frames::frames(self.recs()).len(),
            self.len() <= usize::MAX,
            frames::stand_at(segment_bytes(self.recs()), HEADER_SIZE as int, self.recs()),
            !frames::whole_at(segment_bytes(self.recs()), self.len()),
            le::u32_at(segment_bytes(self.recs()), 0) == MAGIC,
    {
        lemma_segment_bytes(self.recs@);
        assert(self.bytes@.len() == self.bytes.len());
    }

    /// An empty segment.
    fn new(base: u64) -> (r: Self)
        ensures
            r.wf(),
            r.base() == base,
            r.end() == base,
            r.recs() == Seq::<Seq<u8>>::empty(),
            !r.pinned(),
    {
        let mut bytes: Vec<u8> = Vec::new();
        le::push_u32(&mut bytes, MAGIC);
        let mut sparse: Vec<(u64, u64)> = Vec::new();
        sparse.push((base, HEADER_SIZE as u64));
        let ghost none: Seq<Seq<u8>> = Seq::empty();
        assert(none.take(0) =~= none);
        assert(bytes@ =~= segment_bytes(none));
        let r: Segment = Segment { base, end: base, bytes, sparse, pins: 0, recs: Ghost(none) };
        assert(r.entry_ok(0));
        r
    }

    /// Appends a record.
    fn push(&mut self, payload: &[u8], stride: u64)
        requires
            old(self).wf(),
            payload@.len() <= u32::MAX,
            old(self).end() < u64::MAX,
            old(self).len() + 4 + payload@.len() <= usize::MAX,
        ensures
            final(self).wf(),
            final(self).base() == old(self).base(),
            final(self).end() == old(self).end() + 1,
            final(self).recs() == old(self).recs().push(payload@),
            final(self).pinned() == old(self).pinned(),
    {
        let ghost rs = self.recs@;
        let ghost r2 = rs.push(payload@);
        let at: u64 = self.bytes.len() as u64;
        proof {
            assert(rs.take(rs.len() as int) =~= rs);
            assert(r2.drop_last() =~= rs);
            assert(r2.take(rs.len() as int) =~= rs);
        }
        let n: u64 = self.end - self.base;
        if n != 0 && stride != 0 && n % stride == 0 {
            self.sparse.push((self.end, at));
        }
        frames::push_frame(&mut self.bytes, payload);
        self.end = self.end + 1;
        self.recs = Ghost(r2);
        proof {
            assert(self.bytes@ =~= segment_bytes(r2));
            assert forall|i: int| 0 <= i < r2.len() implies (#[trigger] r2[i]).len() <= u32::MAX by {
                if i < rs.len() {
                    assert(r2[i] == rs[i]);
                }
            }
            assert forall|j: int| 0 <= j < self.sparse@.len() implies #[trigger] self.entry_ok(j) by {
                if j < old(self).sparse@.len() {
                    assert(old(self).entry_ok(j));
                    let i = self.sparse@[j].0 - self.base;
                    assert(r2.take(i) =~= rs.take(i));
                }
            }
        }
    }

    /// Reads a segment from its bytes. What is cut off at the end is left out.
    fn scan(base: u64, bytes: Vec<u8>, stride: u64) -> (r: Result<Self, StorageError>)
        ensures
            match r {
                Ok(s) => {
                    &&& segment_readable(bytes@)
                    &&& base + scanned(bytes@).len() <= u64::MAX
                    &&& s.wf()
                    &&& s.base() == base
                    &&& s.recs() == scanned(bytes@)
                    &&& !s.pinned()
                },
                Err(StorageError::UnexpectedEof) => bytes@.len() < HEADER_SIZE,
                Err(StorageError::InvalidData) => bytes@.len() >= HEADER_SIZE && !segment_readable(bytes@),
                Err(e) => e == StorageError::StorageFull && segment_readable(bytes@) && base + scanned(bytes@).len()
                    > u64::MAX,
            },
    {
        let mut bytes: Vec<u8> = bytes;
        let ghost img = bytes@;
        if bytes.len() < HEADER_SIZE {
            return Err(StorageError::UnexpectedEof);
        }
        if le::rd_u32(&bytes, 0) != MAGIC {
            return Err(StorageError::InvalidData);
        }
        let (n, end) = frames::count_frames(&bytes, HEADER_SIZE);
        let ghost rs = scanned(img);
        proof {
            reveal(scanned);
        }
        if n > u64::MAX - base {
            return Err(StorageError::StorageFull);
        }
        proof {
            frames::lemma_scan_stands(img, HEADER_SIZE as int);
            le::lemma_le4_inverse(img, 0);
            assert(img.subrange(0, end as int) =~= segment_bytes(rs));
        }
        bytes.truncate(end);
        assert(bytes@ =~= segment_bytes(rs));
        Ok(Segment::indexed(base, bytes, n, stride, Ghost(rs)))
    }

    /// The segment with the given records, whose bytes these are.
    fn indexed(base: u64, bytes: Vec<u8>, n: u64, stride: u64, Ghost(rs): Ghost<Seq<Seq<u8>>>) -> (r: Self)
        requires
            bytes@ == segment_bytes(rs),
            frames::frames_ok(rs),
            n == rs.len(),
            base + n <= u64::MAX,
        ensures
            r.wf(),
            r.base() == base,
            r.recs() == rs,
            !r.pinned(),
    {
        let mut sparse: Vec<(u64, u64)> = Vec::new();
        let mut i: u64 = 0;
        let mut at: usize = HEADER_SIZE;
        proof {
            assert(rs.take(0) =~= Seq::empty());
            assert(rs.take(rs.len() as int) =~= rs);
            lemma_segment_bytes(rs);
        }
        while i < n
            invariant
                0 <= i <= n,
                n == rs.len(),
                base + n <= u64::MAX,
                bytes@ == segment_bytes(rs),
                frames::stand_at(bytes@, HEADER_SIZE as int, rs),
                at == start_of(rs, i as int),
                forall|j: int|
                    0 <= j < sparse@.len() ==> base <= (#[trigger] sparse@[j]).0 <= base + i && sparse@[j].1 == start_of(
                        rs,
                        sparse@[j].0 - base,
                    ),
            decreases n - i,
        {
            proof {
                frames::lemma_frame_at(bytes@, HEADER_SIZE as int, rs, i as int);
            }
            if i == 0 || (stride != 0 && i % stride == 0) {
                sparse.push((base + i, at as u64));
            }
            match frames::frame_end(&bytes, at) {
                Some(end) => {
                    at = end;
                },
                None => {},
            }
            i = i + 1;
        }
        let r: Segment = Segment { base, end: base + n, bytes, sparse, pins: 0, recs: Ghost(rs) };
        proof {
            assert forall|j: int| 0 <= j < r.sparse@.len() implies #[trigger] r.entry_ok(j) by {
                assert(base <= r.sparse@[j].0);
            }
        }
        r
    }

    /// Reads the records of a segment up to the offset `next`, at which another one starts. What
    /// stands behind them is left out.
    fn scan_sealed(base: u64, bytes: Vec<u8>, next: u64, stride: u64) -> (r: Result<Self, StorageError>)
        ensures
            match r {
                Ok(s) => {
                    &&& cut_error((base, bytes), next) is None
                    &&& s.wf()
                    &&& s.base() == base
                    &&& s.recs() == scanned(bytes@).take(next - base)
                    &&& s.end() == next
                    &&& s.recs().len() > 0
                    &&& !s.pinned()
                },
                Err(e) => cut_error((base, bytes), next) == Some(e),
            },
    {
        let mut bytes: Vec<u8> = bytes;
        let ghost img = bytes@;
        if bytes.len() < HEADER_SIZE {
            return Err(StorageError::UnexpectedEof);
        }
        if le::rd_u32(&bytes, 0) != MAGIC || next <= base {
            return Err(StorageError::InvalidData);
        }
        let (n, end) = frames::count_frames(&bytes, HEADER_SIZE);
        let want: u64 = next - base;
        let ghost rs = scanned(img);
        let ghost kept = rs.take(want as int);
        proof {
            reveal(scanned);
        }
        if n < want {
            return Err(StorageError::UnexpectedEof);
        }
        proof {
            frames::lemma_scan_stands(img, HEADER_SIZE as int);
            le::lemma_le4_inverse(img, 0);
            assert(rs.take(0) =~= Seq::empty());
        }
        let mut i: u64 = 0;
        let mut at: usize = HEADER_SIZE;
        while i < want
            invariant
                0 <= i <= want <= rs.len(),
                bytes@ == img,
                frames::stand_at(img, HEADER_SIZE as int, rs),
                at == start_of(rs, i as int),
            decreases want - i,
        {
            proof {
                frames::lemma_frame_at(bytes@, HEADER_SIZE as int, rs, i as int);
            }
            match frames::frame_end(&bytes, at) {
                Some(end) => {
                    at = end;
                },
                None => {},
            }
            i = i + 1;
        }
        proof {
            frames::lemma_prefix(rs, want as int);
            assert(img.subrange(0, at as int) =~= segment_bytes(kept)) by {
                assert(frames::frames(rs).subrange(0, frames::frames(kept).len() as int) =~= frames::frames(kept)) by {
                    frames::lemma_append(kept, rs.skip(want as int));
                    assert(kept + rs.skip(want as int) =~= rs);
                }
                assert(img.subrange(HEADER_SIZE as int, at as int) =~= img.subrange(
                    HEADER_SIZE as int,
                    HEADER_SIZE + frames::frames(rs).len(),
                ).subrange(0, at - HEADER_SIZE));
                assert(img.subrange(0, at as int) =~= img.subrange(0, HEADER_SIZE as int) + img.subrange(
                    HEADER_SIZE as int,
                    at as int,
                ));
            }
            assert forall|j: int| 0 <= j < kept.len() implies (#[trigger] kept[j]).len() <= u32::MAX by {
                assert(rs[j].len() <= u32::MAX);
            }
        }
        bytes.truncate(at);
        assert(bytes@ =~= segment_bytes(kept));
        let s: Segment = Segment::indexed(base, bytes, want, stride, Ghost(kept));
        proof {
            s.lemma_wf();
        }
        Ok(s)
    }

    /// Where the record at an offset starts: from the last index entry before it, over the
    /// records in between.
    fn locate(&self, offset: u64) -> (at: usize)
        requires
            self.wf(),
            self.base() <= offset <= self.end(),
        ensures
            at == start_of(self.recs(), offset - self.base()),
    {
        let ghost rs = self.recs@;
        proof {
            self.lemma_wf();
            assert(rs.take(0) =~= Seq::empty());
        }
        let mut from: u64 = self.base;
        let mut at: usize = HEADER_SIZE;
        let mut j: usize = self.sparse.len();
        let mut done: bool = false;
        while j > 0 && !done
            invariant
                self.wf(),
                rs == self.recs@,
                j <= self.sparse@.len(),
                self.base <= from <= offset <= self.end,
                at == start_of(rs, from - self.base),
                self.bytes@.len() == self.bytes.len(),
                frames::stand_at(self.bytes@, HEADER_SIZE as int, rs),
            decreases j,
        {
            j = j - 1;
            assert(self.entry_ok(j as int));
            if self.sparse[j].0 <= offset {
                proof {
                    frames::lemma_prefix(rs, self.sparse@[j as int].0 - self.base);
                }
                from = self.sparse[j].0;
                at = self.sparse[j].1 as usize;
                done = true;
            }
        }
        while from < offset
            invariant
                self.wf(),
                rs == self.recs@,
                self.base <= from <= offset <= self.end,
                at == start_of(rs, from - self.base),
                frames::stand_at(self.bytes@, HEADER_SIZE as int, rs),
            decreases offset - from,
        {
            proof {
                frames::lemma_frame_at(self.bytes@, HEADER_SIZE as int, rs, from - self.base);
            }
            match frames::frame_end(&self.bytes, at) {
                Some(end) => {
                    at = end;
                },
                None => {},
            }
            from = from + 1;
        }
        at
    }

    /// The record at an offset, which starts at `at`, and where the next one starts.
    fn read(&self, offset: u64, at: usize) -> (r: (Vec<u8>, usize))
        requires
            self.wf(),
            self.base() <= offset < self.end(),
            at == start_of(self.recs(), offset - self.base()),
        ensures
            r.0@ == self.recs()[offset - self.base()],
            r.1 == start_of(self.recs(), offset - self.base() + 1),
    {
        let ghost rs = self.recs@;
        proof {
            self.lemma_wf();
            frames::lemma_frame_at(self.bytes@, HEADER_SIZE as int, rs, offset - self.base);
        }
        match frames::frame_end(&self.bytes, at) {
            Some(end) => (le::copy_range(&self.bytes, at + 4, end), end),
            None => (Vec::new(), at),
        }
    }
}

/// A segment begins with its magic number.
pub open spec fn segment_readable(b: Seq<u8>) -> bool {
    b.len() >= HEADER_SIZE && le::u32_at(b, 0) == MAGIC
}

/// The whole records of a segment.
#[verifier::opaque]
pub open spec fn scanned(b: Seq<u8>) -> Seq<Seq<u8>> {
    frames::scan(b, HEADER_SIZE as int)
}

/// A segment read back has the records that it was written with.
pub proof fn lemma_segment_bytes(rs: Seq<Seq<u8>>)
    requires
        frames::frames_ok(rs),
    ensures
        segment_readable(segment_bytes(rs)),
        scanned(segment_bytes(rs)) == rs,
        frames::stand_at(segment_bytes(rs), HEADER_SIZE as int, rs),
        segment_bytes(rs).len() == HEADER_SIZE + frames::frames(rs).len(),
        !frames::whole_at(segment_bytes(rs), segment_bytes(rs).len() as int),
{
    reveal(scanned);
    let b = segment_bytes(rs);
    assert forall|i: int| 0 <= i < 4 implies #[trigger] le::le4(MAGIC)[i] == b[0 + i] by {}
    le::lemma_le4(b, 0, MAGIC);
    assert(b.subrange(4, 4 + frames::frames(rs).len() as int) =~= frames::frames(rs));
    frames::lemma_scan(b, HEADER_SIZE as int, rs, 0);
    assert(rs.take(0) =~= Seq::empty());
    assert(rs.skip(0) =~= rs);
}

/// The records of segments one after the other.
pub open spec fn joined(segs: Seq<Segment>) -> Seq<Seq<u8>>
    decreases segs.len(),
{
    if segs.len() == 0 {
        Seq::empty()
    } else {
        joined(segs.drop_last()) + segs.last().recs()
    }
}

/// The bytes that segments take.
pub open spec fn total(segs: Seq<Segment>) -> int
    decreases segs.len(),
{
    if segs.len() == 0 {
        0
    } else {
        total(segs.drop_last()) + segs.last().len()
    }
}

/// Where each segment starts and ends.
pub open spec fn bounds(segs: Seq<Segment>) -> Seq<(u64, u64)> {
    Seq::new(segs.len(), |i: int| (segs[i].base(), segs[i].end()))
}

/// How many segments at the front end at or before `through`. The last one always stays.
pub open spec fn droppable(bs: Seq<(u64, u64)>, through: u64) -> int
    decreases bs.len(),
{
    if bs.len() <= 1 || bs[0].1 > through {
        0
    } else {
        1 + droppable(bs.skip(1), through)
    }
}

/// Each segment starts where the one before it ends, and none but the last is empty.
#[verifier::opaque]
pub open spec fn contiguous(segs: Seq<Segment>) -> bool {
    &&& forall|i: int| 0 <= i < segs.len() ==> (#[trigger] segs[i]).wf()
    &&& forall|i: int, j: int| 0 <= i < j < segs.len() ==> (#[trigger] segs[i]).end() <= (#[trigger] segs[j]).base()
    &&& forall|i: int, j: int| 0 <= i < j < segs.len() ==> (#[trigger] segs[i]).base() < (#[trigger] segs[j]).base()
    &&& forall|i: int| 0 <= i < segs.len() - 1 ==> #[trigger] meets(segs, i)
}

/// Segment `i` ends where the next one starts.
pub open spec fn meets(segs: Seq<Segment>, i: int) -> bool {
    segs[i].end() == segs[i + 1].base()
}

pub proof fn lemma_joined_append(a: Seq<Segment>, b: Seq<Segment>)
    ensures
        joined(a + b) == joined(a) + joined(b),
        total(a + b) == total(a) + total(b),
    decreases b.len(),
{
    if b.len() == 0 {
        assert(a + b =~= a);
        assert(joined(a) + joined(b) =~= joined(a));
    } else {
        assert((a + b).drop_last() =~= a + b.drop_last());
        lemma_joined_append(a, b.drop_last());
        assert(joined(a) + (joined(b.drop_last()) + b.last().recs()) =~= (joined(a) + joined(b.drop_last()))
            + b.last().recs());
    }
}

/// Contiguous segments have as many records as their offsets say.
pub proof fn lemma_joined_len(segs: Seq<Segment>)
    requires
        contiguous(segs),
        segs.len() > 0,
    ensures
        joined(segs).len() == segs.last().end() - segs[0].base(),
        total(segs) >= HEADER_SIZE * segs.len(),
        forall|i: int| 0 <= i < segs.len() ==> (#[trigger] segs[i]).len() <= total(segs),
    decreases segs.len(),
{
    reveal(contiguous);
    let n = segs.len() - 1;
    let p = segs.drop_last();
    segs[n].lemma_wf();
    assert(segs.last() == segs[n]);
    if n == 0 {
        assert(joined(p) =~= Seq::empty());
        assert(joined(segs) =~= segs[0].recs());
        assert(p.len() == 0);
        assert(total(p) == 0);
    } else {
        assert(contiguous(p)) by {
            assert forall|i: int| 0 <= i < p.len() - 1 implies #[trigger] meets(p, i) by {
                assert(meets(segs, i));
            }
        }
        lemma_joined_len(p);
        assert(meets(segs, n - 1));
        assert forall|i: int| 0 <= i < segs.len() implies (#[trigger] segs[i]).len() <= total(segs) by {
            if i < n {
                assert(p[i].len() <= total(p));
            }
        }
    }
}

/// Fewer segments are dropped than there are.
pub proof fn lemma_droppable(bs: Seq<(u64, u64)>, through: u64)
    requires
        bs.len() > 0,
    ensures
        0 <= droppable(bs, through) < bs.len(),
    decreases bs.len(),
{
    if bs.len() > 1 && bs[0].1 <= through {
        lemma_droppable(bs.skip(1), through);
    }
}

/// What is left takes no more than all.
pub proof fn lemma_skip_total(segs: Seq<Segment>, d: int)
    requires
        0 <= d <= segs.len(),
    ensures
        total(segs.skip(d)) <= total(segs),
    decreases segs.len(),
{
    assert(segs =~= segs.take(d) + segs.skip(d));
    lemma_joined_append(segs.take(d), segs.skip(d));
    lemma_total_positive(segs.take(d));
}

proof fn lemma_total_positive(segs: Seq<Segment>)
    ensures
        total(segs) >= 0,
    decreases segs.len(),
{
    if segs.len() > 0 {
        lemma_total_positive(segs.drop_last());
    }
}

/// The record at an offset is that of the segment that holds it.
pub proof fn lemma_joined_at(segs: Seq<Segment>, i: int, offset: int)
    requires
        contiguous(segs),
        0 <= i < segs.len(),
        segs[i].base() <= offset < segs[i].end(),
    ensures
        0 <= offset - segs[0].base() < joined(segs).len(),
        joined(segs)[offset - segs[0].base()] == segs[i].recs()[offset - segs[i].base()],
{
    reveal(contiguous);
    let a = segs.take(i);
    let b = segs.skip(i);
    assert(segs =~= a + b);
    lemma_joined_append(a, b);
    lemma_contiguous_part(segs, 0, i);
    lemma_contiguous_part(segs, i, segs.len() as int);
    assert(a =~= segs.subrange(0, i));
    assert(b =~= segs.subrange(i, segs.len() as int));
    let rest = b.skip(1);
    assert(b =~= seq![b[0]] + rest);
    lemma_joined_append(seq![b[0]], rest);
    assert(seq![b[0]].drop_last() =~= Seq::<Segment>::empty());
    assert(joined(Seq::<Segment>::empty()) =~= Seq::<Seq<u8>>::empty());
    assert(joined(seq![b[0]]) =~= b[0].recs());
    segs[i].lemma_wf();
    if i > 0 {
        lemma_joined_len(a);
        assert(meets(segs, i - 1));
        assert(a.last() == segs[i - 1]);
        assert(joined(a).len() == segs[i].base() - segs[0].base());
    } else {
        assert(joined(a) =~= Seq::<Seq<u8>>::empty());
    }
    assert(joined(segs) == joined(a) + (b[0].recs() + joined(rest)));
}

/// Part of contiguous segments is contiguous.
pub proof fn lemma_contiguous_part(segs: Seq<Segment>, lo: int, hi: int)
    requires
        contiguous(segs),
        0 <= lo <= hi <= segs.len(),
    ensures
        contiguous(segs.subrange(lo, hi)),
{
    reveal(contiguous);
    let p = segs.subrange(lo, hi);
    assert forall|i: int| 0 <= i < p.len() - 1 implies #[trigger] meets(p, i) by {
        assert(meets(segs, lo + i));
    }
}

/// Segments in order, with none inside another.
#[verifier::opaque]
pub open spec fn in_order(segs: Seq<Segment>) -> bool {
    &&& forall|i: int| 0 <= i < segs.len() ==> (#[trigger] segs[i]).wf()
    &&& forall|i: int, j: int| 0 <= i < j < segs.len() ==> (#[trigger] segs[i]).end() <= (#[trigger] segs[j]).base()
    &&& forall|i: int, j: int| 0 <= i < j < segs.len() ==> (#[trigger] segs[i]).base() < (#[trigger] segs[j]).base()
}

/// Segment `t` is segment `s` with records appended.
pub open spec fn prolongs(s: Segment, t: Segment) -> bool {
    &&& s.base() == t.base()
    &&& s.recs().len() <= t.recs().len()
    &&& t.recs().take(s.recs().len() as int) == s.recs()
}

/// A segment is one of the given ones with records appended.
pub open spec fn prolongs_some(a: Seq<Segment>, t: Segment) -> bool {
    exists|i: int| 0 <= i < a.len() && prolongs(#[trigger] a[i], t)
}

/// A list of segments that grew out of another whose records end at `next`: each segment is an
/// old one, perhaps with records appended, or starts behind them.
#[verifier::opaque]
pub open spec fn grew(a: Seq<Segment>, b: Seq<Segment>, next: u64) -> bool {
    forall|j: int| 0 <= j < b.len() ==> prolongs_some(a, #[trigger] b[j]) || b[j].base() >= next
}

pub proof fn lemma_grew_same(a: Seq<Segment>, next: u64)
    ensures
        grew(a, a, next),
{
    reveal(grew);
    assert forall|j: int| 0 <= j < a.len() implies prolongs_some(a, #[trigger] a[j]) || a[j].base() >= next by {
        assert(a[j].recs().take(a[j].recs().len() as int) =~= a[j].recs());
        assert(prolongs(a[j], a[j]));
    }
}

pub proof fn lemma_grew_trans(a: Seq<Segment>, b: Seq<Segment>, c: Seq<Segment>, n1: u64, n2: u64)
    requires
        grew(a, b, n1),
        grew(b, c, n2),
        n1 <= n2,
    ensures
        grew(a, c, n1),
{
    reveal(grew);
    assert forall|j: int| 0 <= j < c.len() implies prolongs_some(a, #[trigger] c[j]) || c[j].base() >= n1 by {
        if prolongs_some(b, c[j]) {
            let i = choose|i: int| 0 <= i < b.len() && prolongs(#[trigger] b[i], c[j]);
            if prolongs_some(a, b[i]) {
                let h = choose|h: int| 0 <= h < a.len() && prolongs(#[trigger] a[h], b[i]);
                assert(c[j].recs().take(a[h].recs().len() as int) =~= b[i].recs().take(a[h].recs().len() as int));
                assert(prolongs(a[h], c[j]));
            }
        }
    }
}

/// No two segments start at the same offset.
pub proof fn lemma_one_base(segs: Seq<Segment>, i: int, j: int)
    requires
        in_order(segs),
        0 <= i < segs.len(),
        0 <= j < segs.len(),
        segs[i].base() == segs[j].base(),
    ensures
        i == j,
{
    reveal(in_order);
    if i < j {
        assert(segs[i].base() < segs[j].base());
    } else if j < i {
        assert(segs[j].base() < segs[i].base());
    }
}

pub proof fn lemma_grew_at(a: Seq<Segment>, b: Seq<Segment>, next: u64, j: int)
    requires
        grew(a, b, next),
        0 <= j < b.len(),
    ensures
        prolongs_some(a, b[j]) || b[j].base() >= next,
{
    reveal(grew);
}

/// Part of segments in order is in order.
proof fn lemma_order_skip(segs: Seq<Segment>, n: int)
    requires
        in_order(segs),
        0 <= n <= segs.len(),
    ensures
        forall|i: int| 0 <= i < segs.len() ==> (#[trigger] segs[i]).wf(),
        forall|i: int, j: int|
            0 <= i < j < segs.skip(n).len() ==> (#[trigger] segs.skip(n)[i]).end() <= (
            #[trigger] segs.skip(n)[j]).base() && segs.skip(n)[i].base() < segs.skip(n)[j].base(),
{
    reveal(in_order);
    assert forall|i: int, j: int| 0 <= i < j < segs.skip(n).len() implies (#[trigger] segs.skip(n)[i]).end() <= (
    #[trigger] segs.skip(n)[j]).base() && segs.skip(n)[i].base() < segs.skip(n)[j].base() by {
        assert(segs.skip(n)[i] == segs[n + i]);
        assert(segs.skip(n)[j] == segs[n + j]);
    }
}

proof fn lemma_wf_at(segs: Seq<Segment>, i: int)
    requires
        in_order(segs),
        0 <= i < segs.len(),
    ensures
        segs[i].wf(),
{
    reveal(in_order);
}

proof fn lemma_order_pair(segs: Seq<Segment>, i: int, j: int)
    requires
        in_order(segs),
        0 <= i < j < segs.len(),
    ensures
        segs[i].end() <= segs[j].base(),
        segs[i].base() < segs[j].base(),
{
    reveal(in_order);
}

/// Another segment behind the last one.
proof fn lemma_push_segment(segs: Seq<Segment>, first: int, s: Segment)
    requires
        in_order(segs),
        0 <= first < segs.len(),
        contiguous(segs.skip(first)),
        s.wf(),
        s.base() == segs.last().end(),
        segs.last().base() < s.base(),
    ensures
        in_order(segs.push(s)),
        contiguous(segs.push(s).skip(first)),
        segs.push(s).skip(first) == segs.skip(first).push(s),
        grew(segs, segs.push(s), s.base()),
{
    let t = segs.push(s);
    let n = segs.len() as int;
    assert(in_order(t)) by {
        reveal(in_order);
        assert forall|i: int, j: int| 0 <= i < j < t.len() implies (#[trigger] t[i]).end() <= (#[trigger] t[j]).base()
            && t[i].base() < t[j].base() by {
            if j == n {
                segs[n - 1].lemma_wf();
                if i < n - 1 {
                    assert(segs[i].end() <= segs[n - 1].base());
                    assert(segs[i].base() < segs[n - 1].base());
                }
            } else {
                assert(segs[i].end() <= segs[j].base());
            }
        }
    }
    assert(t.skip(first) =~= segs.skip(first).push(s));
    assert(contiguous(t.skip(first))) by {
        lemma_order_skip(t, first);
        reveal(contiguous);
        let k = segs.skip(first);
        let k2 = t.skip(first);
        assert forall|i: int| 0 <= i < k2.len() - 1 implies #[trigger] meets(k2, i) by {
            if i < k.len() - 1 {
                assert(meets(k, i));
            }
        }
        assert forall|i: int| 0 <= i < k2.len() implies (#[trigger] k2[i]).wf() by {
            assert(k2[i] == t[first + i]);
        }
    }
    lemma_grew_same(segs, s.base());
    assert(grew(segs, t, s.base())) by {
        reveal(grew);
        assert forall|j: int| 0 <= j < t.len() implies prolongs_some(segs, #[trigger] t[j]) || t[j].base() >= s.base() by {
            if j < n {
                assert(t[j] == segs[j]);
            }
        }
    }
}

/// The last segment with records appended.
proof fn lemma_prolong_last(segs: Seq<Segment>, first: int, s: Segment, next: u64)
    requires
        in_order(segs),
        0 <= first < segs.len(),
        contiguous(segs.skip(first)),
        s.wf(),
        prolongs(segs.last(), s),
    ensures
        in_order(segs.update(segs.len() - 1, s)),
        contiguous(segs.update(segs.len() - 1, s).skip(first)),
        segs.update(segs.len() - 1, s).skip(first) == segs.skip(first).update(segs.len() - 1 - first, s),
        grew(segs, segs.update(segs.len() - 1, s), next),
{
    let n = segs.len() - 1;
    let t = segs.update(n, s);
    assert(in_order(t)) by {
        reveal(in_order);
        assert forall|i: int, j: int| 0 <= i < j < t.len() implies (#[trigger] t[i]).end() <= (#[trigger] t[j]).base()
            && t[i].base() < t[j].base() by {
            assert(segs[i].end() <= segs[j].base());
            assert(segs[i].base() < segs[j].base());
        }
    }
    assert(t.skip(first) =~= segs.skip(first).update(n - first, s));
    assert(contiguous(t.skip(first))) by {
        lemma_order_skip(t, first);
        reveal(contiguous);
        let k = segs.skip(first);
        let k2 = t.skip(first);
        assert forall|i: int| 0 <= i < k2.len() - 1 implies #[trigger] meets(k2, i) by {
            assert(meets(k, i));
        }
        assert forall|i: int| 0 <= i < k2.len() implies (#[trigger] k2[i]).wf() by {
            assert(k2[i] == t[first + i]);
        }
    }
    lemma_grew_same(segs, next);
    assert(grew(segs, t, next)) by {
        reveal(grew);
        assert forall|j: int| 0 <= j < t.len() implies prolongs_some(segs, #[trigger] t[j]) || t[j].base() >= next by {
            if j < n {
                assert(t[j] == segs[j]);
            } else {
                assert(prolongs(segs[n], t[j]));
            }
        }
    }
}

/// Segments with one taken out.
proof fn lemma_take_out(segs: Seq<Segment>, f: int, next: u64)
    requires
        in_order(segs),
        0 <= f < segs.len(),
    ensures
        in_order(segs.remove(f)),
        grew(segs, segs.remove(f), next),
        forall|s: Segment| segs.contains(s) && s != segs[f] ==> #[trigger] segs.remove(f).contains(s),
{
    let t = segs.remove(f);
    assert(in_order(t)) by {
        reveal(in_order);
        assert forall|i: int, j: int| 0 <= i < j < t.len() implies (#[trigger] t[i]).end() <= (#[trigger] t[j]).base()
            && t[i].base() < t[j].base() by {
            let oi = if i < f {
                i
            } else {
                i + 1
            };
            let oj = if j < f {
                j
            } else {
                j + 1
            };
            assert(t[i] == segs[oi] && t[j] == segs[oj]);
            assert(segs[oi].end() <= segs[oj].base());
            assert(segs[oi].base() < segs[oj].base());
        }
        assert forall|i: int| 0 <= i < t.len() implies (#[trigger] t[i]).wf() by {
            let oi = if i < f {
                i
            } else {
                i + 1
            };
            assert(t[i] == segs[oi]);
        }
    }
    lemma_grew_same(segs, next);
    assert(grew(segs, t, next)) by {
        reveal(grew);
        assert forall|j: int| 0 <= j < t.len() implies prolongs_some(segs, #[trigger] t[j]) || t[j].base() >= next by {
            let oj = if j < f {
                j
            } else {
                j + 1
            };
            assert(t[j] == segs[oj]);
        }
    }
    assert forall|s: Segment| segs.contains(s) && s != segs[f] implies #[trigger] t.contains(s) by {
        let x = choose|x: int| 0 <= x < segs.len() && segs[x] == s;
        if x < f {
            assert(t[x] == s);
        } else {
            assert(t[x - 1] == s);
        }
    }
}

/// The records of a file: up to the offset at which the next one starts, where there is one.
pub open spec fn recs_in(files: Seq<(u64, Vec<u8>)>, i: int) -> Seq<Seq<u8>> {
    if i + 1 < files.len() {
        scanned(files[i].1@).take(files[i + 1].0 - files[i].0)
    } else {
        scanned(files[i].1@)
    }
}

/// The segment read from a file.
pub open spec fn is_read(s: Segment, files: Seq<(u64, Vec<u8>)>, i: int) -> bool {
    s.base() == files[i].0 && s.recs() == recs_in(files, i)
}

/// The segments read from files.
pub open spec fn read_from(segs: Seq<Segment>, files: Seq<(u64, Vec<u8>)>) -> bool {
    &&& segs.len() == files.len()
    &&& forall|i: int| 0 <= i < files.len() ==> #[trigger] is_read(segs[i], files, i)
}

/// What is wrong with a file by itself.
pub open spec fn file_error(f: (u64, Vec<u8>)) -> Option<StorageError> {
    if f.1@.len() < HEADER_SIZE {
        Some(StorageError::UnexpectedEof)
    } else if !segment_readable(f.1@) {
        Some(StorageError::InvalidData)
    } else if f.0 + scanned(f.1@).len() > u64::MAX {
        Some(StorageError::StorageFull)
    } else {
        None
    }
}

/// What is wrong with the last segment.
pub open spec fn active_error(files: Seq<(u64, Vec<u8>)>) -> Option<StorageError> {
    file_error(files.last())
}

/// What is wrong with a file whose records end at the offset `next`.
pub open spec fn cut_error(f: (u64, Vec<u8>), next: u64) -> Option<StorageError> {
    if f.1@.len() < HEADER_SIZE {
        Some(StorageError::UnexpectedEof)
    } else if !segment_readable(f.1@) || next <= f.0 {
        Some(StorageError::InvalidData)
    } else if scanned(f.1@).len() < next - f.0 {
        Some(StorageError::UnexpectedEof)
    } else {
        None
    }
}

/// What is wrong with the segments from `i` on that are not the last one. Each must hold its
/// records up to the offset at which the next one starts.
pub open spec fn sealed_error(files: Seq<(u64, Vec<u8>)>, i: int) -> Option<StorageError>
    decreases files.len() - i,
{
    if i >= files.len() - 1 {
        None
    } else {
        let e = cut_error(files[i], files[i + 1].0);
        if e is Some {
            e
        } else {
            sealed_error(files, i + 1)
        }
    }
}

/// The bytes that the segments of the first `n` files take.
pub open spec fn files_total(files: Seq<(u64, Vec<u8>)>, n: int) -> int
    decreases n,
{
    if n <= 0 {
        0
    } else {
        files_total(files, n - 1) + segment_bytes(recs_in(files, n - 1)).len()
    }
}

/// What is wrong with the files of a topic, if anything.
pub open spec fn files_error(files: Seq<(u64, Vec<u8>)>) -> Option<StorageError> {
    if active_error(files) is Some {
        active_error(files)
    } else if sealed_error(files, 0) is Some {
        sealed_error(files, 0)
    } else if files_total(files, files.len() as int) > MAX_BYTES {
        Some(StorageError::StorageFull)
    } else {
        None
    }
}

proof fn lemma_total_read(segs: Seq<Segment>, files: Seq<(u64, Vec<u8>)>)
    requires
        segs.len() <= files.len(),
        forall|i: int| 0 <= i < segs.len() ==> #[trigger] is_read(segs[i], files, i),
    ensures
        total(segs) == files_total(files, segs.len() as int),
    decreases segs.len(),
{
    if segs.len() > 0 {
        let n = segs.len() - 1;
        assert(is_read(segs[n], files, n));
        assert forall|i: int| 0 <= i < segs.drop_last().len() implies #[trigger] is_read(
            segs.drop_last()[i],
            files,
            i,
        ) by {
            assert(is_read(segs[i], files, i));
        }
        lemma_total_read(segs.drop_last(), files);
    }
}

/// Another segment behind all others.
proof fn lemma_order_push(segs: Seq<Segment>, s: Segment)
    requires
        in_order(segs),
        s.wf(),
        segs.len() > 0 ==> segs.last().end() <= s.base() && segs.last().base() < s.base(),
    ensures
        in_order(segs.push(s)),
{
    let t = segs.push(s);
    let n = segs.len() as int;
    reveal(in_order);
    assert forall|i: int, j: int| 0 <= i < j < t.len() implies (#[trigger] t[i]).end() <= (#[trigger] t[j]).base()
        && t[i].base() < t[j].base() by {
        if j == n {
            segs[n - 1].lemma_wf();
            if i < n - 1 {
                assert(segs[i].end() <= segs[n - 1].base());
                assert(segs[i].base() < segs[n - 1].base());
            }
        } else {
            assert(segs[i].end() <= segs[j].base());
        }
    }
}

/// Segments that differ in nothing but their cursors are as good.
proof fn lemma_like(a: Seq<Segment>, b: Seq<Segment>, first: int, next: u64)
    requires
        in_order(a),
        0 <= first < a.len(),
        contiguous(a.skip(first)),
        a.len() == b.len(),
        forall|j: int|
            0 <= j < a.len() ==> (#[trigger] b[j]).base() == a[j].base() && b[j].end() == a[j].end() && b[j].recs()
                == a[j].recs() && b[j].wf() == a[j].wf(),
    ensures
        in_order(b),
        contiguous(b.skip(first)),
        joined(b.skip(first)) == joined(a.skip(first)),
        bounds(b.skip(first)) == bounds(a.skip(first)),
        total(b.skip(first)) == total(a.skip(first)),
        grew(a, b, next),
{
    let ka = a.skip(first);
    let kb = b.skip(first);
    assert(in_order(b)) by {
        reveal(in_order);
        assert forall|i: int, j: int| 0 <= i < j < b.len() implies (#[trigger] b[i]).end() <= (#[trigger] b[j]).base()
            && b[i].base() < b[j].base() by {
            assert(a[i].end() <= a[j].base());
            assert(a[i].base() < a[j].base());
        }
        assert forall|i: int| 0 <= i < b.len() implies (#[trigger] b[i]).wf() by {
            assert(a[i].wf());
        }
    }
    assert(contiguous(kb)) by {
        lemma_order_skip(b, first);
        reveal(contiguous);
        assert forall|i: int| 0 <= i < kb.len() - 1 implies #[trigger] meets(kb, i) by {
            assert(meets(ka, i));
        }
        assert forall|i: int| 0 <= i < kb.len() implies (#[trigger] kb[i]).wf() by {
            assert(kb[i] == b[first + i]);
        }
    }
    assert forall|i: int| 0 <= i < kb.len() implies (#[trigger] kb[i]).recs() == ka[i].recs() by {
        assert(kb[i] == b[first + i]);
    }
    lemma_like_joined(ka, kb);
    assert(bounds(kb) =~= bounds(ka)) by {
        assert forall|i: int| 0 <= i < kb.len() implies #[trigger] bounds(kb)[i] == bounds(ka)[i] by {
            assert(kb[i] == b[first + i]);
        }
    }
    lemma_grew_same(a, next);
    assert(grew(a, b, next)) by {
        reveal(grew);
        assert forall|j: int| 0 <= j < b.len() implies prolongs_some(a, #[trigger] b[j]) || b[j].base() >= next by {
            assert(b[j].recs().take(a[j].recs().len() as int) =~= a[j].recs());
            assert(prolongs(a[j], b[j]));
        }
    }
}

proof fn lemma_like_joined(a: Seq<Segment>, b: Seq<Segment>)
    requires
        a.len() == b.len(),
        forall|i: int| 0 <= i < a.len() ==> (#[trigger] b[i]).recs() == a[i].recs(),
    ensures
        joined(b) == joined(a),
        total(b) == total(a),
    decreases a.len(),
{
    if a.len() > 0 {
        let n = a.len() - 1;
        assert(b[n].recs() == a[n].recs());
        lemma_like_joined(a.drop_last(), b.drop_last());
    }
}

/// The first files have been read, and are segments that meet.
#[verifier::opaque]
spec fn sealed_so_far(segs: Seq<Segment>, files: Seq<(u64, Vec<u8>)>) -> bool {
    &&& in_order(segs)
    &&& forall|j: int| 0 <= j < segs.len() ==> #[trigger] is_read(segs[j], files, j)
    &&& forall|j: int| 0 <= j < segs.len() ==> (#[trigger] segs[j]).end() == files[j + 1].0
    &&& forall|j: int| 0 <= j < segs.len() ==> (#[trigger] segs[j]).recs().len() > 0
}

proof fn lemma_sealed_step(segs: Seq<Segment>, files: Seq<(u64, Vec<u8>)>, s: Segment)
    requires
        sealed_so_far(segs, files),
        segs.len() + 1 < files.len(),
        s.wf(),
        is_read(s, files, segs.len() as int),
        s.end() == files[segs.len() as int + 1].0,
        s.recs().len() > 0,
    ensures
        sealed_so_far(segs.push(s), files),
        total(segs.push(s)) == total(segs) + s.len(),
{
    reveal(sealed_so_far);
    let i = segs.len() as int;
    let t = segs.push(s);
    if i > 0 {
        assert(segs[i - 1].end() == files[i].0);
        lemma_wf_at(segs, i - 1);
        segs[i - 1].lemma_wf();
        assert(segs[i - 1].recs().len() > 0);
    }
    lemma_order_push(segs, s);
    assert(t.drop_last() =~= segs);
    assert forall|j: int| 0 <= j < t.len() implies #[trigger] is_read(t[j], files, j) by {
        if j < i {
            assert(is_read(segs[j], files, j));
        }
    }
    assert forall|j: int| 0 <= j < t.len() implies (#[trigger] t[j]).end() == files[j + 1].0 && t[j].recs().len() > 0 by {
        if j < i {
            assert(t[j] == segs[j]);
        }
    }
}

/// The segments of a topic. Those before `first` are no longer retained; a cursor still
/// stands in each of them.
pub struct SegmentLog {
    segments: Vec<Segment>,
    first: usize,
    stride: u64,
    retained_bytes: u64,
}

impl SegmentLog {
    /// All segments, retained or not.
    pub closed spec fn held(&self) -> Seq<Segment> {
        self.segments@
    }

    /// The retained segments.
    pub closed spec fn kept(&self) -> Seq<Segment> {
        self.segments@.skip(self.first as int)
    }

    /// The retained records.
    pub open spec fn records(&self) -> Seq<Seq<u8>> {
        joined(self.kept())
    }

    /// Offset of the first retained record.
    pub open spec fn earliest(&self) -> u64 {
        self.kept()[0].base()
    }

    /// Offset of the next record to come.
    pub open spec fn next(&self) -> u64 {
        self.kept().last().end()
    }

    pub closed spec fn wf(&self) -> bool {
        &&& self.first < self.segments@.len()
        &&& in_order(self.segments@)
        &&& contiguous(self.kept())
        &&& self.retained_bytes == total(self.kept())
        &&& total(self.kept()) <= MAX_BYTES
        &&& forall|i: int| 0 <= i < self.first ==> (#[trigger] self.segments@[i]).pinned()
    }

    /// What the segments promise to their users.
    pub proof fn lemma_wf(&self)
        requires
            self.wf(),
        ensures
            self.kept().len() > 0,
            contiguous(self.kept()),
            self.records().len() == self.next() - self.earliest(),
            self.earliest() <= self.next(),
            0 <= total(self.kept()) <= MAX_BYTES,
            in_order(self.held()),
            self.kept().last() == self.held().last(),
            self.kept().last().wf(),
            self.earliest() <= self.kept().last().base(),
    {
        lemma_joined_len(self.kept());
        lemma_total_positive(self.kept());
        assert(self.kept().last() == self.segments@.last());
        lemma_wf_at(self.segments@, self.segments@.len() - 1);
        if self.kept().len() > 1 {
            lemma_order_pair(self.segments@, self.first as int, self.segments@.len() - 1);
        }
    }

    /// One empty segment.
    pub fn new(stride: u64) -> (r: Self)
        ensures
            r.wf(),
            r.records() == Seq::<Seq<u8>>::empty(),
            r.earliest() == 0,
            r.next() == 0,
            bounds(r.kept()) == seq![(0u64, 0u64)],
            total(r.kept()) == HEADER_SIZE,
            r.kept().len() == 1,
            r.kept()[0].recs().len() == 0,
    {
        let mut segments: Vec<Segment> = Vec::new();
        segments.push(Segment::new(0));
        let r: SegmentLog = SegmentLog { segments, first: 0, stride, retained_bytes: HEADER_SIZE as u64 };
        proof {
            let k = r.kept();
            assert(k =~= segments@);
            k[0].lemma_wf();
            assert(in_order(k)) by {
                reveal(in_order);
            }
            assert(contiguous(k)) by {
                reveal(contiguous);
            }
            assert(k.drop_last() =~= Seq::<Segment>::empty());
            assert(joined(k.drop_last()) =~= Seq::<Seq<u8>>::empty());
            assert(total(k.drop_last()) == 0);
            assert(joined(k) =~= Seq::<Seq<u8>>::empty());
            assert(bounds(k) =~= seq![(0u64, 0u64)]);
        }
        r
    }

    /// Reads the segments from their bytes, each with the offset at which it starts. Each ends
    /// where the next one starts. The last one may be cut off inside a record; what is cut off is
    /// left out.
    #[verifier::rlimit(30)]
    pub fn open(input: Vec<(u64, Vec<u8>)>, stride: u64) -> (r: Result<Self, StorageError>)
        requires
            input@.len() > 0,
        ensures
            match r {
                Ok(t) => {
                    &&& files_error(input@) is None
                    &&& t.wf()
                    &&& t.held() == t.kept()
                    &&& read_from(t.kept(), input@)
                },
                Err(e) => files_error(input@) == Some(e),
            },
    {
        let ghost all = input@;
        let ghost last = all.len() - 1;
        let mut files: Vec<(u64, Vec<u8>)> = input;
        let (active_base, active_bytes) = match files.pop() {
            Some(f) => f,
            None => (0, Vec::new()),
        };
        assert(all.last() == (active_base, active_bytes));
        let active: Segment = match Segment::scan(active_base, active_bytes, stride) {
            Ok(s) => s,
            Err(e) => {
                return Err(e);
            },
        };
        let ghost sealed = all.drop_last();
        assert(files@ =~= sealed);
        let mut left: Vec<(u64, Vec<u8>)> = vecs::reversed(files);
        let mut segments: Vec<Segment> = Vec::new();
        let mut size: u128 = 0;
        let ghost mut i: int = 0;
        proof {
            assert(sealed.skip(0) =~= sealed);
            assert(sealed_so_far(segments@, all)) by {
                reveal(in_order);
                reveal(sealed_so_far);
            }
        }
        while left.len() > 0
            invariant
                0 <= i <= last,
                all == input@,
                last == all.len() - 1,
                sealed == all.drop_last(),
                active_base == all[last].0,
                left@ == sealed.skip(i).reverse(),
                segments@.len() == i,
                i <= usize::MAX,
                sealed_so_far(segments@, all),
                sealed_error(all, 0) == sealed_error(all, i),
                active_error(all) is None,
                size == total(segments@),
                size <= i * 0x1_0000_0000_0000_0000,
            decreases left@.len(),
        {
            match left.pop() {
                Some((base, bytes)) => {
                    proof {
                        let d = sealed.skip(i);
                        assert(d.reverse().last() == d[0]);
                        assert(d.reverse().drop_last() =~= sealed.skip(i + 1).reverse());
                        if i + 1 < last {
                            assert(sealed.skip(i + 1).reverse().last() == all[i + 1]);
                        }
                    }
                    let next: u64 = if left.len() > 0 {
                        left[left.len() - 1].0
                    } else {
                        active_base
                    };
                    assert(next == all[i + 1].0);
                    match Segment::scan_sealed(base, bytes, next, stride) {
                        Ok(s) => {
                            proof {
                                s.lemma_wf();
                                lemma_sealed_step(segments@, all, s);
                                assert(s.bytes@.len() == s.bytes.len());
                            }
                            size = size + s.bytes.len() as u128;
                            segments.push(s);
                            assert(segments@.len() == segments.len());
                        },
                        Err(e) => {
                            return Err(e);
                        },
                    }
                },
                None => {},
            }
            proof {
                i = i + 1;
            }
        }
        proof {
            assert(i == last);
            active.lemma_wf();
            assert(active.bytes@.len() == active.bytes.len());
        }
        let ghost before = segments@;
        let active_len: usize = active.bytes.len();
        segments.push(active);
        let whole: u128 = size + active_len as u128;
        proof {
            reveal(sealed_so_far);
            if last > 0 {
                assert(before[last - 1].end() == all[last].0);
                lemma_wf_at(before, last - 1);
                before[last - 1].lemma_wf();
                assert(before[last - 1].recs().len() > 0);
            }
            lemma_order_push(before, active);
            assert(segments@.drop_last() =~= before);
            assert forall|j: int| 0 <= j < all.len() implies #[trigger] is_read(segments@[j], all, j) by {
                if j < last {
                    assert(is_read(before[j], all, j));
                }
            }
            lemma_total_read(segments@, all);
        }
        if whole > MAX_BYTES as u128 {
            return Err(StorageError::StorageFull);
        }
        let r: SegmentLog = SegmentLog { segments, first: 0, stride, retained_bytes: whole as u64 };
        proof {
            assert(r.kept() =~= r.segments@);
            assert(contiguous(r.segments@)) by {
                reveal(contiguous);
                reveal(in_order);
                assert forall|j: int| 0 <= j < r.segments@.len() - 1 implies #[trigger] meets(r.segments@, j) by {
                    assert(before[j].end() == all[j + 1].0);
                    assert(is_read(r.segments@[j + 1], all, j + 1));
                }
            }
        }
        Ok(r)
    }

    /// Whether a record of `n` bytes can be appended, with a new segment for it.
    pub open spec fn has_room(&self, n: int) -> bool {
        &&& total(self.kept()) + n + 4 + HEADER_SIZE <= MAX_BYTES
        &&& self.next() < u64::MAX
    }

    pub fn room(&self, n: usize) -> (r: bool)
        requires
            self.wf(),
            n <= u32::MAX,
        ensures
            r == self.has_room(n as int),
    {
        let last: &Segment = &self.segments[self.segments.len() - 1];
        proof {
            assert(self.kept().last() == self.segments@.last());
        }
        last.end < u64::MAX && self.retained_bytes <= MAX_BYTES as u64 && n as u64 + 4 + HEADER_SIZE as u64
            <= MAX_BYTES as u64 - self.retained_bytes
    }

    /// Bytes of the segment that is appended to.
    pub open spec fn active_len(&self) -> int {
        self.kept().last().len()
    }

    /// Whether a record of `n` bytes calls for a new segment.
    pub open spec fn full(&self, n: int, max: u64) -> bool {
        self.kept().last().recs().len() > 0 && self.active_len() + 4 + n > max
    }

    pub fn is_full(&self, n: usize, max: u64) -> (r: bool)
        requires
            self.wf(),
            self.has_room(n as int),
        ensures
            r == self.full(n as int, max),
    {
        let last: &Segment = &self.segments[self.segments.len() - 1];
        proof {
            self.lemma_wf();
            last.lemma_wf();
            lemma_joined_len(self.kept());
            assert(self.kept()[self.kept().len() - 1] == *last);
            assert(last.bytes@.len() == last.bytes.len());
        }
        last.end != last.base && last.bytes.len() as u64 + 4 + n as u64 > max
    }

    /// Starts a new segment.
    pub fn rotate(&mut self)
        requires
            old(self).wf(),
            total(old(self).kept()) + HEADER_SIZE <= MAX_BYTES,
            old(self).kept().last().recs().len() > 0,
        ensures
            final(self).wf(),
            final(self).records() == old(self).records(),
            final(self).earliest() == old(self).earliest(),
            final(self).next() == old(self).next(),
            bounds(final(self).kept()) == bounds(old(self).kept()).push((old(self).next(), old(self).next())),
            total(final(self).kept()) == total(old(self).kept()) + HEADER_SIZE,
            final(self).kept().last().recs().len() == 0,
            final(self).kept().last().base() == old(self).next(),
            final(self).kept().len() == old(self).kept().len() + 1,
            final(self).kept().drop_last() == old(self).kept(),
            grew(old(self).held(), final(self).held(), old(self).next()),
    {
        let n: usize = self.segments.len();
        let base: u64 = self.segments[n - 1].end;
        let ghost k = self.kept();
        proof {
            self.lemma_wf();
            assert(k.last() == self.segments@.last());
            self.segments@[n - 1].lemma_wf();
        }
        self.segments.push(Segment::new(base));
        self.retained_bytes = self.retained_bytes + HEADER_SIZE as u64;
        proof {
            let k2 = self.kept();
            let s = self.segments@.last();
            s.lemma_wf();
            lemma_push_segment(old(self).segments@, old(self).first as int, s);
            assert(self.segments@ =~= old(self).segments@.push(s));
            assert(k2.drop_last() =~= k);
            assert(joined(k2) =~= joined(k));
            assert(bounds(k2) =~= bounds(k).push((base, base)));
        }
    }

    /// Appends a record to the last segment and gives its offset.
    pub fn push(&mut self, payload: &[u8]) -> (r: u64)
        requires
            old(self).wf(),
            payload@.len() <= u32::MAX,
            total(old(self).kept()) + 4 + payload@.len() <= MAX_BYTES,
            old(self).next() < u64::MAX,
        ensures
            final(self).wf(),
            r == old(self).next(),
            final(self).records() == old(self).records().push(payload@),
            final(self).earliest() == old(self).earliest(),
            final(self).next() == old(self).next() + 1,
            bounds(final(self).kept()) == bounds(old(self).kept()).update(
                old(self).kept().len() - 1,
                (old(self).kept().last().base(), (old(self).next() + 1) as u64),
            ),
            total(final(self).kept()) == total(old(self).kept()) + 4 + payload@.len(),
            final(self).kept().len() == old(self).kept().len(),
            final(self).kept().drop_last() == old(self).kept().drop_last(),
            final(self).kept().last().base() == old(self).kept().last().base(),
            final(self).kept().last().recs() == old(self).kept().last().recs().push(payload@),
            grew(old(self).held(), final(self).held(), old(self).next()),
    {
        let n: usize = self.segments.len();
        let offset: u64 = self.segments[n - 1].end;
        let stride: u64 = self.stride;
        let ghost k = self.kept();
        let ghost segs = self.segments@;
        proof {
            self.lemma_wf();
            lemma_joined_len(k);
            assert(k.last() == segs.last());
            assert(k[k.len() - 1].len() <= total(k));
            segs[n - 1].lemma_wf();
        }
        self.segments[n - 1].push(payload, stride);
        self.retained_bytes = self.retained_bytes + 4 + payload.len() as u64;
        proof {
            let k2 = self.kept();
            let s = self.segments@[n - 1];
            assert(self.segments@ =~= segs.update(n - 1, s));
            let rs = segs[n - 1].recs();
            assert(s.recs().take(rs.len() as int) =~= rs);
            lemma_prolong_last(segs, self.first as int, s, old(self).next());
            assert(k2.drop_last() =~= k.drop_last());
            s.lemma_wf();
            assert(rs.push(payload@).drop_last() =~= rs);
            assert(joined(k2) =~= joined(k).push(payload@));
            assert(bounds(k2) =~= bounds(k).update(k.len() - 1, (k.last().base(), (offset + 1) as u64)));
            assert forall|i: int| 0 <= i < self.first implies (#[trigger] self.segments@[i]).pinned() by {
                assert(segs[i].pinned());
            }
        }
        offset
    }

    /// Drops the segments at the front that end at or before `through`, but for the last one.
    /// Those in which a cursor stands are held on to.
    pub fn compact(&mut self, through: u64)
        requires
            old(self).wf(),
        ensures
            final(self).wf(),
            final(self).kept() == old(self).kept().skip(droppable(bounds(old(self).kept()), through)),
            final(self).next() == old(self).next(),
            old(self).earliest() <= final(self).earliest(),
            final(self).earliest() <= old(self).earliest() || final(self).earliest() <= through,
            0 < final(self).kept().len() <= old(self).kept().len(),
            // All that may go has gone, and nothing else.
            final(self).kept().len() == 1 || final(self).kept()[0].end() > through,
            forall|i: int|
                0 <= i < old(self).kept().len() - final(self).kept().len() ==> (#[trigger] old(self).kept()[i]).end()
                    <= through,
            final(self).records() == old(self).records().skip(final(self).earliest() - old(self).earliest()),
            grew(old(self).held(), final(self).held(), old(self).next()),
            forall|i: int| #![trigger old(self).held()[i]]
                0 <= i < old(self).held().len() && old(self).held()[i].pinned() ==> final(self).held().contains(
                    old(self).held()[i],
                ),
    {
        let ghost segs = self.segments@;
        let ghost k = self.kept();
        let ghost next = self.next();
        let ghost mut d: int = 0;
        proof {
            self.lemma_wf();
            lemma_grew_same(segs, next);
            assert(bounds(k).skip(0) =~= bounds(k));
            assert(k.skip(0) =~= k);
            assert(joined(k).skip(0) =~= joined(k));
        }
        while self.first < self.segments.len() - 1 && self.segments[self.first].end <= through
            invariant
                self.wf(),
                0 <= d < k.len(),
                contiguous(k),
                self.kept() == k.skip(d),
                self.next() == next,
                k.last().end() == next,
                droppable(bounds(k), through) == d + droppable(bounds(k).skip(d), through),
                k[0].base() <= self.earliest(),
                d == 0 || self.earliest() <= through,
                d == 0 ==> self.earliest() == k[0].base(),
                forall|i: int| 0 <= i < d ==> (#[trigger] k[i]).end() <= through,
                self.records() == joined(k).skip(self.earliest() - k[0].base()),
                grew(segs, self.segments@, next),
                forall|i: int| #![trigger segs[i]]
                    0 <= i < segs.len() && segs[i].pinned() ==> self.segments@.contains(segs[i]),
            decreases k.len() - d,
        {
            let f: usize = self.first;
            let ghost cur = self.segments@;
            let ghost gone = cur[f as int];
            proof {
                self.lemma_wf();
                assert(self.kept()[0] == gone);
                assert(k[d] == gone);
                let b = bounds(k).skip(d);
                assert(b[0] == bounds(k)[d]);
                assert(b.skip(1) =~= bounds(k).skip(d + 1));
                lemma_wf_at(cur, f as int);
                gone.lemma_wf();
                self.lemma_drop_first();
                assert(meets(self.kept(), 0)) by {
                    reveal(contiguous);
                }
                assert(self.kept().skip(1) =~= k.skip(d + 1));
                assert(gone.bytes@.len() == gone.bytes.len());
            }
            let size: u64 = self.segments[f].bytes.len() as u64;
            if self.segments[f].pins > 0 {
                self.first = f + 1;
            } else {
                let _ = self.segments.remove(f);
            }
            self.retained_bytes = self.retained_bytes - size;
            proof {
                if !gone.pinned() {
                    lemma_take_out(cur, f as int, next);
                    lemma_grew_trans(segs, cur, self.segments@, next, next);
                    assert(self.segments@ =~= cur.remove(f as int));
                }
                assert(self.kept() =~= k.skip(d + 1));
                assert forall|i: int| #![trigger segs[i]]
                    0 <= i < segs.len() && segs[i].pinned() implies self.segments@.contains(segs[i]) by {
                    assert(cur.contains(segs[i]));
                }
                assert forall|i: int| 0 <= i < self.first implies (#[trigger] self.segments@[i]).pinned() by {
                    if i < f {
                        assert(self.segments@[i] == cur[i]);
                    }
                }
                let e0 = gone.base() - k[0].base();
                lemma_joined_len(k);
                assert(e0 + gone.recs().len() <= joined(k).len());
                assert(joined(k).skip(e0).skip(gone.recs().len() as int) =~= joined(k).skip(
                    gone.end() - k[0].base(),
                ));
                d = d + 1;
            }
        }
        proof {
            let b = bounds(k).skip(d);
            self.lemma_wf();
            assert(self.segments@[self.first as int] == self.kept()[0]);
            assert(b[0] == bounds(k)[d]);
        }
    }

    /// Without its first segment, what is kept starts with the records of the second.
    proof fn lemma_drop_first(&self)
        requires
            self.wf(),
            self.kept().len() > 1,
        ensures
            contiguous(self.kept().skip(1)),
            joined(self.kept().skip(1)) == joined(self.kept()).skip(self.kept()[0].recs().len() as int),
            joined(self.kept()).len() >= self.kept()[0].recs().len(),
            total(self.kept()) == self.kept()[0].len() + total(self.kept().skip(1)),
            total(self.kept().skip(1)) >= 0,
    {
        let k = self.kept();
        let a = seq![k[0]];
        let b = k.skip(1);
        assert(k =~= a + b);
        lemma_joined_append(a, b);
        assert(a.drop_last() =~= Seq::<Segment>::empty());
        assert(joined(Seq::<Segment>::empty()) =~= Seq::<Seq<u8>>::empty());
        assert(total(Seq::<Segment>::empty()) == 0);
        assert(joined(a) =~= k[0].recs());
        assert(total(a) == k[0].len());
        lemma_contiguous_part(k, 1, k.len() as int);
        assert(b =~= k.subrange(1, k.len() as int));
        lemma_joined_len(b);
        assert(joined(b) =~= joined(k).skip(k[0].recs().len() as int));
    }

    /// A segment ends before the next record to come.
    pub proof fn lemma_end(&self, i: int)
        requires
            self.wf(),
            0 <= i < self.held().len(),
        ensures
            self.held()[i].wf(),
            self.held()[i].end() == self.held()[i].base() + self.held()[i].recs().len(),
            self.held()[i].base() <= self.held()[i].end() <= self.next(),
    {
        self.lemma_wf();
        lemma_wf_at(self.segments@, i);
        self.segments@[i].lemma_wf();
        let n = self.segments@.len() - 1;
        if i < n {
            lemma_order_pair(self.segments@, i, n);
            lemma_wf_at(self.segments@, n);
            self.segments@[n].lemma_wf();
        }
    }

    /// A retained record is that of the segment that holds it.
    pub proof fn lemma_held_record(&self, i: int, o: int)
        requires
            self.wf(),
            0 <= i < self.held().len(),
            self.earliest() <= o,
            self.held()[i].base() <= o < self.held()[i].end(),
        ensures
            self.records()[o - self.earliest()] == self.held()[i].recs()[o - self.held()[i].base()],
            o < self.next(),
    {
        self.lemma_end(i);
        if i < self.first {
            lemma_order_pair(self.segments@, i, self.first as int);
            assert(self.kept()[0] == self.segments@[self.first as int]);
        } else {
            assert(self.kept()[i - self.first] == self.segments@[i]);
            lemma_joined_at(self.kept(), i - self.first, o);
        }
    }

    /// The segment that starts at `base`, retained or not.
    pub fn find_base(&self, base: u64) -> (r: Option<usize>)
        requires
            self.wf(),
        ensures
            match r {
                Some(i) => i < self.held().len() && self.held()[i as int].base() == base,
                None => forall|i: int| 0 <= i < self.held().len() ==> (#[trigger] self.held()[i]).base() != base,
            },
    {
        let mut i: usize = 0;
        while i < self.segments.len()
            invariant
                0 <= i <= self.segments@.len(),
                forall|j: int| 0 <= j < i ==> (#[trigger] self.held()[j]).base() != base,
            decreases self.segments@.len() - i,
        {
            if self.segments[i].base == base {
                return Some(i);
            }
            assert(self.held()[i as int].base() != base);
            i = i + 1;
        }
        None
    }

    /// The retained segment that holds the record at an offset.
    pub fn find_offset(&self, offset: u64) -> (i: usize)
        requires
            self.wf(),
            self.earliest() <= offset < self.next(),
        ensures
            i < self.held().len(),
            self.held()[i as int].base() <= offset < self.held()[i as int].end(),
            self.held()[i as int].recs()[offset - self.held()[i as int].base()] == self.records()[offset
                - self.earliest()],
    {
        let ghost k = self.kept();
        let mut i: usize = self.first;
        proof {
            self.lemma_wf();
        }
        while self.segments[i].end <= offset
            invariant
                self.wf(),
                k == self.kept(),
                self.first <= i < self.segments@.len(),
                offset < self.next(),
                k[i - self.first].base() <= offset,
                self.next() == self.segments@.last().end(),
            decreases self.segments@.len() - i,
        {
            proof {
                reveal(contiguous);
                assert(self.segments@.len() == self.segments.len());
                assert(self.segments@[i as int] == k[i - self.first]);
                assert(i < self.segments@.len() - 1);
                assert(meets(k, i - self.first));
            }
            i = i + 1;
        }
        proof {
            assert(self.segments@[i as int] == k[i - self.first]);
            lemma_joined_at(k, i - self.first, offset as int);
        }
        i
    }

    /// Where the record at an offset of segment `i` starts.
    pub fn locate(&self, i: usize, offset: u64) -> (at: usize)
        requires
            self.wf(),
            i < self.held().len(),
            self.held()[i as int].base() <= offset <= self.held()[i as int].end(),
        ensures
            at == start_of(self.held()[i as int].recs(), offset - self.held()[i as int].base()),
    {
        proof {
            lemma_wf_at(self.segments@, i as int);
        }
        self.segments[i].locate(offset)
    }

    /// The record at an offset of segment `i`, which starts at `at`, and where the next one
    /// starts.
    pub fn read(&self, i: usize, offset: u64, at: usize) -> (r: (Vec<u8>, usize))
        requires
            self.wf(),
            i < self.held().len(),
            self.held()[i as int].base() <= offset < self.held()[i as int].end(),
            at == start_of(self.held()[i as int].recs(), offset - self.held()[i as int].base()),
        ensures
            r.0@ == self.held()[i as int].recs()[offset - self.held()[i as int].base()],
            r.1 == start_of(self.held()[i as int].recs(), offset - self.held()[i as int].base() + 1),
    {
        proof {
            lemma_wf_at(self.segments@, i as int);
        }
        self.segments[i].read(offset, at)
    }

    /// Where segment `i` starts, and where it ends.
    pub fn span(&self, i: usize) -> (r: (u64, u64))
        requires
            i < self.held().len(),
        ensures
            r.0 == self.held()[i as int].base(),
            r.1 == self.held()[i as int].end(),
    {
        (self.segments[i].base, self.segments[i].end)
    }

    /// The logs hold the same records in the same segments.
    pub open spec fn same(&self, o: Self) -> bool {
        &&& self.records() == o.records()
        &&& bounds(self.kept()) == bounds(o.kept())
        &&& total(self.kept()) == total(o.kept())
        &&& self.earliest() == o.earliest()
        &&& self.next() == o.next()
    }

    /// Segment `i` has another number of cursors, and nothing else is different.
    pub open spec fn repinned(&self, to: &Self, i: int, n: int) -> bool {
        &&& to.held().len() == self.held().len()
        &&& to.kept().len() == self.kept().len()
        &&& forall|j: int| 0 <= j < self.held().len() && j != i ==> #[trigger] to.held()[j] == self.held()[j]
        &&& to.held()[i].base() == self.held()[i].base()
        &&& to.held()[i].end() == self.held()[i].end()
        &&& to.held()[i].recs() == self.held()[i].recs()
        &&& to.held()[i].pins() == n
    }

    /// A cursor has left segment `i`, which goes with its last cursor where it is not retained.
    pub open spec fn left(&self, to: &Self, i: int) -> bool {
        let n = self.held()[i].pins();
        if i < self.held().len() - self.kept().len() && n <= 1 {
            to.held() == self.held().remove(i) && to.kept() == self.kept()
        } else {
            self.repinned(
                to,
                i,
                if n > 0 {
                    n - 1
                } else {
                    0
                },
            )
        }
    }

    /// A cursor has left the segment that starts at `base`, if there is one.
    pub open spec fn released(&self, to: &Self, base: u64) -> bool {
        ||| *to == *self && forall|i: int| 0 <= i < self.held().len() ==> (#[trigger] self.held()[i]).base() != base
        ||| exists|i: int|
            0 <= i < self.held().len() && (#[trigger] self.held()[i]).base() == base && self.left(to, i)
    }

    /// A reader that stood in the given segment has left it.
    pub open spec fn let_out(&self, to: &Self, stood_in: Option<u64>) -> bool {
        match stood_in {
            Some(base) => self.released(to, base),
            None => *to == *self,
        }
    }

    /// How many cursors stand in the segment that starts at `base`.
    pub open spec fn cursors(&self, base: u64) -> int {
        if exists|i: int| 0 <= i < self.held().len() && (#[trigger] self.held()[i]).base() == base {
            self.held()[choose|i: int| 0 <= i < self.held().len()
                && (#[trigger] self.held()[i]).base() == base].pins() as int
        } else {
            0
        }
    }

    pub proof fn lemma_cursors(&self, i: int)
        requires
            self.wf(),
            0 <= i < self.held().len(),
        ensures
            self.cursors(self.held()[i].base()) == self.held()[i].pins(),
    {
        let base = self.held()[i].base();
        let j = choose|j: int| 0 <= j < self.held().len() && (#[trigger] self.held()[j]).base() == base;
        lemma_one_base(self.held(), i, j);
    }

    /// Segments with the same bases have the same cursors, but for one with another number of them.
    proof fn lemma_repinned(&self, to: &Self, i: int, n: int)
        requires
            self.wf(),
            to.wf(),
            0 <= i < self.held().len(),
            self.repinned(to, i, n),
        ensures
            forall|b: u64| #[trigger]
                to.cursors(b) == (if b == self.held()[i].base() {
                    n
                } else {
                    self.cursors(b)
                }),
    {
        assert forall|b: u64| #[trigger] to.cursors(b) == (if b == self.held()[i].base() {
            n
        } else {
            self.cursors(b)
        }) by {
            if exists|j: int| 0 <= j < self.held().len() && (#[trigger] self.held()[j]).base() == b {
                let j = choose|j: int| 0 <= j < self.held().len() && (#[trigger] self.held()[j]).base() == b;
                assert(to.held()[j].base() == b);
                self.lemma_cursors(j);
                to.lemma_cursors(j);
                if b == self.held()[i].base() {
                    lemma_one_base(self.held(), i, j);
                }
            } else {
                assert forall|j: int| 0 <= j < to.held().len() implies (#[trigger] to.held()[j]).base() != b by {
                    assert(self.held()[j].base() != b);
                }
            }
        }
    }

    /// A segment that goes takes its cursors with it, and no others.
    proof fn lemma_taken_out(&self, to: &Self, i: int)
        requires
            self.wf(),
            to.wf(),
            0 <= i < self.held().len(),
            to.held() == self.held().remove(i),
        ensures
            forall|b: u64| #[trigger]
                to.cursors(b) == (if b == self.held()[i].base() {
                    0
                } else {
                    self.cursors(b)
                }),
    {
        assert forall|b: u64| #[trigger] to.cursors(b) == (if b == self.held()[i].base() {
            0
        } else {
            self.cursors(b)
        }) by {
            if b != self.held()[i].base() && exists|j: int|
                0 <= j < self.held().len() && (#[trigger] self.held()[j]).base() == b {
                let j = choose|j: int| 0 <= j < self.held().len() && (#[trigger] self.held()[j]).base() == b;
                let x = if j < i {
                    j
                } else {
                    j - 1
                };
                assert(to.held()[x] == self.held()[j]);
                self.lemma_cursors(j);
                to.lemma_cursors(x);
            } else {
                assert forall|x: int| 0 <= x < to.held().len() implies (#[trigger] to.held()[x]).base() != b by {
                    let j = if x < i {
                        x
                    } else {
                        x + 1
                    };
                    assert(to.held()[x] == self.held()[j]);
                    if b == self.held()[i].base() && self.held()[j].base() == b {
                        lemma_one_base(self.held(), i, j);
                    }
                }
            }
        }
    }

    /// Notes that a cursor stands in segment `i`.
    pub fn pin(&mut self, i: usize)
        requires
            old(self).wf(),
            i < old(self).held().len(),
        ensures
            final(self).wf(),
            final(self).same(*old(self)),
            final(self).held().len() == old(self).held().len(),
            forall|j: int|
                0 <= j < old(self).held().len() ==> (#[trigger] final(self).held()[j]).base() == old(
                    self,
                ).held()[j].base() && final(self).held()[j].recs() == old(self).held()[j].recs(),
            final(self).held()[i as int].pinned(),
            old(self).repinned(
                final(self),
                i as int,
                if old(self).held()[i as int].pins() < u64::MAX {
                    old(self).held()[i as int].pins() + 1
                } else {
                    u64::MAX as int
                },
            ),
            grew(old(self).held(), final(self).held(), old(self).next()),
            old(self).held()[i as int].pins() < u64::MAX ==> forall|b: u64| #[trigger]
                final(self).cursors(b) == old(self).cursors(b) + (if b == old(self).held()[i as int].base() {
                    1int
                } else {
                    0
                }),
            final(self).held()[i as int].base() == old(self).held()[i as int].base(),
    {
        let n: u64 = self.segments[i].pins;
        if n < u64::MAX {
            self.set_pins(i, n + 1);
            proof {
                old(self).lemma_cursors(i as int);
                old(self).lemma_repinned(self, i as int, n + 1);
            }
        } else {
            proof {
                lemma_grew_same(self.segments@, self.next());
            }
        }
    }

    fn set_pins(&mut self, i: usize, n: u64)
        requires
            old(self).wf(),
            i < old(self).held().len(),
            i < old(self).first ==> n > 0,
        ensures
            final(self).wf(),
            final(self).same(*old(self)),
            final(self).first == old(self).first,
            final(self).held().len() == old(self).held().len(),
            forall|j: int|
                0 <= j < old(self).held().len() ==> (#[trigger] final(self).held()[j]).base() == old(
                    self,
                ).held()[j].base() && final(self).held()[j].recs() == old(self).held()[j].recs(),
            old(self).repinned(final(self), i as int, n as int),
            grew(old(self).held(), final(self).held(), old(self).next()),
    {
        let ghost segs = self.segments@;
        self.segments[i].pins = n;
        proof {
            let t = self.segments@;
            assert forall|j: int| 0 <= j < segs.len() implies (#[trigger] t[j]).base() == segs[j].base() && t[j].end()
                == segs[j].end() && t[j].recs() == segs[j].recs() && (t[j].wf() == segs[j].wf()) by {
                if j == i {
                    assert(t[j].base == segs[j].base);
                    assert forall|x: int| 0 <= x < segs[j].sparse@.len() implies t[j].entry_ok(x) == segs[j].entry_ok(x) by {}
                }
            }
            lemma_like(segs, t, self.first as int, old(self).next());
            assert forall|j: int| 0 <= j < self.first implies (#[trigger] t[j]).pinned() by {
                if j != i {
                    assert(segs[j].pinned());
                }
            }
        }
    }

    /// Notes that a cursor has left the segment that starts at `base`. A segment that is not
    /// retained goes with its last cursor.
    pub fn release(&mut self, base: u64)
        requires
            old(self).wf(),
        ensures
            final(self).wf(),
            final(self).same(*old(self)),
            old(self).released(final(self), base),
            grew(old(self).held(), final(self).held(), old(self).next()),
            forall|b: u64| #[trigger]
                final(self).cursors(b) == old(self).cursors(b) - (if b == base && old(self).cursors(b) > 0 {
                    1int
                } else {
                    0
                }),
    {
        let ghost next = self.next();
        let ghost segs = self.segments@;
        proof {
            lemma_grew_same(segs, next);
        }
        match self.find_base(base) {
            None => {},
            Some(i) => {
                let n: u64 = self.segments[i].pins;
                assert(self.held()[i as int].base() == base);
                assert(self.kept().len() == self.segments@.len() - self.first);
                if i < self.first && n <= 1 {
                    let ghost k = self.kept();
                    let _ = self.segments.remove(i);
                    self.first = self.first - 1;
                    proof {
                        lemma_take_out(segs, i as int, next);
                        assert(self.kept() =~= k);
                        assert forall|j: int| 0 <= j < self.first implies (#[trigger] self.segments@[j]).pinned() by {
                            if j < i {
                                assert(self.segments@[j] == segs[j]);
                            } else {
                                assert(self.segments@[j] == segs[j + 1]);
                            }
                        }
                    }
                } else if n > 0 {
                    self.set_pins(i, n - 1);
                }
                proof {
                    assert(old(self).left(self, i as int));
                    old(self).lemma_cursors(i as int);
                    if i < old(self).first && n <= 1 {
                        assert(segs[i as int].pinned());
                        assert(self.held() =~= old(self).held().remove(i as int));
                        old(self).lemma_taken_out(self, i as int);
                    } else if n > 0 {
                        old(self).lemma_repinned(self, i as int, n - 1);
                    }
                }
            },
        }
    }

    /// Offset of the first retained record.
    pub fn earliest_offset(&self) -> (r: u64)
        requires
            self.wf(),
        ensures
            r == self.earliest(),
    {
        self.segments[self.first].base
    }

    /// Offset of the next record to come.
    pub fn next_offset(&self) -> (r: u64)
        requires
            self.wf(),
        ensures
            r == self.next(),
    {
        self.segments[self.segments.len() - 1].end
    }

    /// Bytes of the retained segments.
    pub fn retained_bytes(&self) -> (r: u64)
        requires
            self.wf(),
        ensures
            r == total(self.kept()),
    {
        self.retained_bytes
    }

    /// The number of retained segments.
    pub fn count(&self) -> (r: usize)
        requires
            self.wf(),
        ensures
            r == self.kept().len(),
    {
        self.segments.len() - self.first
    }

    /// Where each segment starts that is held, retained or not.
    pub fn held_bases(&self) -> (r: Vec<u64>)
        requires
            self.wf(),
        ensures
            r@.len() == self.held().len(),
            forall|i: int| 0 <= i < r@.len() ==> #[trigger] r@[i] == self.held()[i].base(),
    {
        let mut r: Vec<u64> = Vec::new();
        let mut i: usize = 0;
        while i < self.segments.len()
            invariant
                i <= self.segments@.len(),
                r@.len() == i,
                forall|j: int| 0 <= j < i ==> #[trigger] r@[j] == self.held()[j].base(),
            decreases self.segments@.len() - i,
        {
            r.push(self.segments[i].base);
            i = i + 1;
        }
        r
    }

    /// The retained segments: where each starts, and its bytes.
    pub fn images(&self) -> (r: Vec<(u64, Vec<u8>)>)
        requires
            self.wf(),
        ensures
            written_as(self.kept(), r@, Seq::empty()),
    {
        let mut r: Vec<(u64, Vec<u8>)> = Vec::new();
        let mut i: usize = self.first;
        while i < self.segments.len()
            invariant
                self.wf(),
                self.first <= i <= self.segments@.len(),
                r@.len() == i - self.first,
                forall|j: int|
                    0 <= j < i - self.first ==> (#[trigger] r@[j]).0 == self.kept()[j].base() && r@[j].1@ == segment_bytes(
                        self.kept()[j].recs(),
                    ),
            decreases self.segments@.len() - i,
        {
            proof {
                lemma_wf_at(self.segments@, i as int);
            }
            r.push((self.segments[i].base, self.segments[i].bytes.duplicate()));
            i = i + 1;
        }
        proof {
            let k = self.kept();
            assert forall|j: int| 0 <= j < k.len() implies #[trigger] is_written(k, r@, Seq::empty(), j) by {
                assert(r@[j].1@ =~= segment_bytes(k[j].recs()) + Seq::<u8>::empty());
            }
            assert(written_as(k, r@, Seq::empty()));
        }
        r
    }
}

/// File `i` is what segment `i` was written to. Behind the records of the last one stands `cut`.
pub open spec fn is_written(segs: Seq<Segment>, files: Seq<(u64, Vec<u8>)>, cut: Seq<u8>, i: int) -> bool {
    &&& files[i].0 == segs[i].base()
    &&& files[i].1@ == segment_bytes(segs[i].recs()) + if i == segs.len() - 1 {
        cut
    } else {
        Seq::empty()
    }
}

/// The files that segments were written to. Behind the records of the last one stands `cut`.
pub open spec fn written_as(segs: Seq<Segment>, files: Seq<(u64, Vec<u8>)>, cut: Seq<u8>) -> bool {
    &&& files.len() == segs.len()
    &&& forall|i: int| 0 <= i < segs.len() ==> #[trigger] is_written(segs, files, cut, i)
}

/// Bytes that are no whole record.
pub open spec fn no_record(b: Seq<u8>) -> bool {
    !frames::whole_at(b, 0)
}

/// What is read of a file with a part of a record at its end.
proof fn lemma_scan_cut(rs: Seq<Seq<u8>>, cut: Seq<u8>)
    requires
        frames::frames_ok(rs),
        no_record(cut),
    ensures
        segment_readable(segment_bytes(rs) + cut),
        scanned(segment_bytes(rs) + cut) == rs,
{
    reveal(scanned);
    lemma_segment_bytes(rs);
    let a = segment_bytes(rs);
    let b = a + cut;
    le::lemma_u32_same(a, b, 0, 0);
    let n = frames::frames(rs).len() as int;
    assert(b.subrange(4, 4 + n) =~= a.subrange(4, 4 + n));
    if frames::whole_at(b, 4 + n) {
        le::lemma_u32_same(b, cut, 4 + n, 0);
    }
    frames::lemma_scan(b, HEADER_SIZE as int, rs, 0);
    assert(rs.take(0) =~= Seq::empty());
    assert(rs.skip(0) =~= rs);
}

/// Sorting puts files with rising numbers where they were.
proof fn lemma_sorted_files(files: Seq<(u64, Vec<u8>)>, sorted: Seq<(u64, Vec<u8>)>)
    requires
        vecs::by_number(sorted),
        sorted.to_multiset() == files.to_multiset(),
        forall|i: int, j: int| 0 <= i < j < files.len() ==> (#[trigger] files[i]).0 < (#[trigger] files[j]).0,
    ensures
        sorted == files,
    decreases files.len(),
{
    broadcast use vstd::seq_lib::group_to_multiset_ensures;

    assert(sorted.to_multiset().len() == sorted.len() && files.to_multiset().len() == files.len());
    if files.len() == 0 {
        assert(sorted =~= files);
    } else {
        let n = files.len() - 1;
        let s = sorted[n];
        let f = files[n];
        assert(sorted.contains(s) && files.contains(f));
        assert(sorted.to_multiset().count(s) > 0 && files.to_multiset().count(f) > 0);
        assert(files.contains(s) && sorted.contains(f));
        let i = choose|i: int| 0 <= i < files.len() && files[i] == s;
        let j = choose|j: int| 0 <= j < sorted.len() && sorted[j] == f;
        assert(s == f);
        assert(sorted.drop_last() =~= sorted.remove(n) && files.drop_last() =~= files.remove(n));
        assert(sorted.drop_last().to_multiset() =~= files.drop_last().to_multiset());
        lemma_sorted_files(files.drop_last(), sorted.drop_last());
        assert(sorted =~= sorted.drop_last().push(s));
        assert(files =~= files.drop_last().push(f));
    }
}

proof fn lemma_sealed_written(segs: Seq<Segment>, files: Seq<(u64, Vec<u8>)>, cut: Seq<u8>, i: int)
    requires
        contiguous(segs),
        written_as(segs, files, cut),
        0 <= i <= segs.len(),
    ensures
        sealed_error(files, i) is None,
    decreases segs.len() - i,
{
    if i < files.len() - 1 {
        reveal(contiguous);
        assert(is_written(segs, files, cut, i));
        assert(is_written(segs, files, cut, i + 1));
        assert(meets(segs, i));
        assert(segs[i].wf());
        segs[i].lemma_wf();
        lemma_segment_bytes(segs[i].recs());
        assert(files[i].1@ =~= segment_bytes(segs[i].recs()));
        lemma_scan_cut(segs[i].recs(), Seq::empty());
        assert(segment_bytes(segs[i].recs()) + Seq::<u8>::empty() =~= files[i].1@);
        assert(segs[i].base() < segs[i + 1].base());
        lemma_sealed_written(segs, files, cut, i + 1);
    }
}

/// A topic's segments that are written out and read again are the same segments, in whatever
/// order the files come. A record that was cut off while it was written, at the end of the last
/// file, is not seen.
pub proof fn reopening_keeps_records(
    before: SegmentLog,
    after: SegmentLog,
    cut: Seq<u8>,
    files: Seq<(u64, Vec<u8>)>,
    sorted: Seq<(u64, Vec<u8>)>,
)
    requires
        before.wf(),
        after.wf(),
        written_as(before.kept(), files, cut),
        no_record(cut),
        vecs::by_number(sorted),
        sorted.to_multiset() == files.to_multiset(),
        read_from(after.kept(), sorted),
    ensures
        files_error(sorted) is None,
        after.records() == before.records(),
        after.earliest() == before.earliest(),
        after.next() == before.next(),
        bounds(after.kept()) == bounds(before.kept()),
{
    let a = before.kept();
    let b = after.kept();
    before.lemma_wf();
    after.lemma_wf();
    assert forall|i: int| 0 <= i < a.len() implies a[i].wf() && #[trigger] files[i].0 == a[i].base() && scanned(
        files[i].1@,
    ) == a[i].recs() && file_error(files[i]) is None by {
        let c = if i == a.len() - 1 {
            cut
        } else {
            Seq::empty()
        };
        assert(is_written(a, files, cut, i));
        assert(a[i].wf()) by {
            reveal(contiguous);
        }
        a[i].lemma_wf();
        lemma_scan_cut(a[i].recs(), c);
    }
    assert forall|i: int, j: int| 0 <= i < j < files.len() implies (#[trigger] files[i]).0 < (#[trigger] files[j]).0 by {
        reveal(contiguous);
        assert(a[i].base() < a[j].base());
    }
    lemma_sorted_files(files, sorted);
    assert forall|i: int| 0 <= i < a.len() implies #[trigger] is_read(a[i], files, i) by {
        assert(files[i].0 == a[i].base());
        if i + 1 < files.len() {
            assert(files[i + 1].0 == a[i + 1].base());
            assert(meets(a, i)) by {
                reveal(contiguous);
            }
            a[i].lemma_wf();
            assert(a[i].recs().take(a[i].recs().len() as int) =~= a[i].recs());
        }
    }
    lemma_total_read(a, files);
    lemma_sealed_written(a, files, cut, 0);
    assert forall|i: int| 0 <= i < a.len() implies (#[trigger] b[i]).base() == a[i].base() && b[i].recs() == a[i].recs()
        && b[i].end() == a[i].end() by {
        assert(is_read(b[i], files, i));
        assert(is_read(a[i], files, i));
        assert(files[i].0 == a[i].base());
        assert(b[i].wf()) by {
            reveal(contiguous);
        }
        b[i].lemma_wf();
        a[i].lemma_wf();
    }
    lemma_like_joined(a, b);
    assert(bounds(a) =~= bounds(b));
}

} // verus!
