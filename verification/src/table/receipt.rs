//! Which events of an author have been received: all up to the greatest number seen, but for some
//! ranges that are missing.

use crate::error::StorageError;
use crate::utils::le;
use crate::utils::serdes;
use vstd::prelude::*;

verus! {

/// The numbers from `start` to `end`, both of them among it.
#[derive(Clone, Copy, Debug, PartialEq, Eq, Structural)]
pub struct SeqRange {
    pub start: u64,
    pub end: u64,
}

/// What has been received from one author.
#[derive(Clone, Debug)]
pub struct ReceiptWindow {
    pub max_seen: u64,
    pub missing: Vec<SeqRange>,
}

/// A window as its fields say it.
pub struct Window {
    pub max_seen: u64,
    pub missing: Seq<SeqRange>,
}

/// The number lies in one of the ranges.
pub open spec fn missing_from(missing: Seq<SeqRange>, n: u64) -> bool {
    exists|i: int| 0 <= i < missing.len() && (#[trigger] missing[i]).start <= n <= missing[i].end
}

impl Window {
    /// The ranges rise without touching the greatest number, and none holds 0.
    pub open spec fn wf(self) -> bool {
        &&& forall|i: int|
            0 <= i < self.missing.len() ==> 1 <= (#[trigger] self.missing[i]).start <= self.missing[i].end
                < self.max_seen
        &&& forall|i: int, j: int|
            0 <= i < j < self.missing.len() ==> (#[trigger] self.missing[i]).end < (#[trigger] self.missing[j]).start
    }

    /// A received event stands between any two ranges.
    pub open spec fn apart(self) -> bool {
        forall|i: int, j: int|
            0 <= i < j < self.missing.len() ==> (#[trigger] self.missing[i]).end + 1 < (#[trigger] self.missing[j]).start
    }

    /// Event `n` has been received.
    pub open spec fn seen(self, n: u64) -> bool {
        1 <= n <= self.max_seen && !missing_from(self.missing, n)
    }

    /// The bytes of the ranges one after the other.
    pub open spec fn ranges_code(missing: Seq<SeqRange>) -> Seq<u8>
        decreases missing.len(),
    {
        if missing.len() == 0 {
            Seq::empty()
        } else {
            Window::ranges_code(missing.drop_last()) + le::le8(missing.last().start) + le::le8(missing.last().end)
        }
    }

    /// The bytes of a window: the greatest number, how many ranges, and their ends.
    pub open spec fn code(self) -> Seq<u8> {
        le::le8(self.max_seen) + le::le8(self.missing.len() as u64) + Window::ranges_code(self.missing)
    }
}

/// Range `i` without the number `n` that it holds.
pub open spec fn filled(missing: Seq<SeqRange>, i: int, n: u64) -> Seq<SeqRange> {
    let r = missing[i];
    let left = if r.start < n {
        seq![SeqRange { start: r.start, end: (n - 1) as u64 }]
    } else {
        Seq::empty()
    };
    let right = if n < r.end {
        seq![SeqRange { start: (n + 1) as u64, end: r.end }]
    } else {
        Seq::empty()
    };
    missing.take(i) + left + right + missing.skip(i + 1)
}

/// The window after event `n` has been received.
pub open spec fn observed(w: Window, n: u64) -> Window {
    if n > w.max_seen + 1 {
        Window {
            max_seen: n,
            missing: w.missing.push(SeqRange { start: (w.max_seen + 1) as u64, end: (n - 1) as u64 }),
        }
    } else if n > w.max_seen {
        Window { max_seen: n, missing: w.missing }
    } else if missing_from(w.missing, n) {
        let i = choose|i: int| 0 <= i < w.missing.len() && (#[trigger] w.missing[i]).start <= n <= w.missing[i].end;
        Window { max_seen: w.max_seen, missing: filled(w.missing, i, n) }
    } else {
        w
    }
}

/// Nothing received.
pub open spec fn no_receipts() -> Window {
    Window { max_seen: 0, missing: Seq::empty() }
}

impl View for ReceiptWindow {
    type V = Window;

    open spec fn view(&self) -> Window {
        Window { max_seen: self.max_seen, missing: self.missing@ }
    }
}

impl Default for ReceiptWindow {
    fn default() -> (r: ReceiptWindow)
        ensures
            r@ == no_receipts(),
            r@.wf(),
    {
        let r = ReceiptWindow { max_seen: 0, missing: Vec::new() };
        assert(r.missing@ =~= Seq::empty());
        r
    }
}

impl ReceiptWindow {
    /// Where the number lies among the ranges: the index of the range that holds it, or the index
    /// at which one that does would stand.
    fn missing_index(&self, sequence: u64) -> (r: Result<usize, usize>)
        requires
            self@.wf(),
        ensures
            match r {
                Ok(i) => i < self.missing@.len() && self.missing@[i as int].start <= sequence
                    <= self.missing@[i as int].end,
                Err(i) => i <= self.missing@.len() && !missing_from(self.missing@, sequence),
            },
    {
        let mut lo: usize = 0;
        let mut hi: usize = self.missing.len();
        while lo < hi
            invariant
                lo <= hi <= self.missing@.len(),
                self@.wf(),
                forall|i: int| 0 <= i < lo ==> (#[trigger] self.missing@[i]).end < sequence,
                forall|i: int| hi <= i < self.missing@.len() ==> sequence < (#[trigger] self.missing@[i]).start,
            decreases hi - lo,
        {
            let mid: usize = lo + (hi - lo) / 2;
            let range = self.missing[mid];
            assert(self@.missing[mid as int] == range);
            if sequence < range.start {
                assert forall|i: int| mid <= i < self.missing@.len() implies sequence < (
                #[trigger] self.missing@[i]).start by {
                    if i > mid {
                        assert(self@.missing[mid as int].end < self@.missing[i].start);
                    }
                }
                hi = mid;
            } else if sequence > range.end {
                assert forall|i: int| 0 <= i < mid + 1 implies (#[trigger] self.missing@[i]).end < sequence by {
                    if i < mid {
                        assert(self@.missing[i].end < self@.missing[mid as int].start);
                    }
                }
                lo = mid + 1;
            } else {
                return Ok(mid);
            }
        }
        Err(lo)
    }

    /// Whether the event has been received.
    pub fn contains(&self, sequence: u64) -> (r: bool)
        requires
            self@.wf(),
        ensures
            r == self@.seen(sequence),
    {
        if sequence == 0 || sequence > self.max_seen {
            return false;
        }
        match self.missing_index(sequence) {
            Ok(i) => {
                proof {
                    let found = self.missing@[i as int];
                    assert(missing_from(self.missing@, sequence));
                }
                false
            },
            Err(_) => true,
        }
    }

    /// Notes that an event has been received. The number 0 is reserved.
    pub fn observe(&mut self, sequence: u64) -> (r: Result<(), StorageError>)
        requires
            old(self)@.wf(),
        ensures
            final(self)@.wf(),
            match r {
                Ok(_) => {
                    &&& sequence != 0
                    &&& final(self)@ == observed(old(self)@, sequence)
                    &&& final(self)@.max_seen == (if sequence > old(self)@.max_seen {
                        sequence
                    } else {
                        old(self)@.max_seen
                    })
                    &&& forall|n: u64| #[trigger] final(self)@.seen(n) == (old(self)@.seen(n) || n == sequence)
                },
                Err(e) => sequence == 0 && e == StorageError::InvalidData && *final(self) == *old(self),
            },
    {
        let ghost was = self@;
        if sequence == 0 {
            return Err(StorageError::InvalidData);
        }
        if sequence > self.max_seen {
            if sequence > self.max_seen + 1 {
                let gap = SeqRange { start: self.max_seen + 1, end: sequence - 1 };
                self.missing.push(gap);
                self.max_seen = sequence;
                proof {
                    lemma_gap(was, self@, gap, sequence);
                }
            } else {
                self.max_seen = sequence;
                proof {
                    assert forall|i: int| 0 <= i < self@.missing.len() implies 1 <= (
                    #[trigger] self@.missing[i]).start <= self@.missing[i].end < self@.max_seen by {
                        assert(was.missing[i].end < was.max_seen);
                    }
                    assert forall|i: int, j: int| 0 <= i < j < self@.missing.len() implies (
                    #[trigger] self@.missing[i]).end < (#[trigger] self@.missing[j]).start by {
                        assert(was.missing[i].end < was.missing[j].start);
                    }
                    assert forall|n: u64| #[trigger] self@.seen(n) == (was.seen(n) || n == sequence) by {
                        lemma_none_above(was, n);
                    }
                }
            }
            return Ok(());
        }
        match self.missing_index(sequence) {
            Err(_) => {
                assert(was.seen(sequence));
                Ok(())
            },
            Ok(index) => {
                assert(self.missing@.len() == self.missing.len());
                let range = self.missing.remove(index);
                let ghost i = index as int;
                let ghost gone = self.missing@;
                assert(was.missing[i] == range);
                let mut at: usize = index;
                if range.start < sequence {
                    self.missing.insert(at, SeqRange { start: range.start, end: sequence - 1 });
                    at = at + 1;
                }
                if sequence < range.end {
                    self.missing.insert(at, SeqRange { start: sequence + 1, end: range.end });
                }
                proof {
                    assert(self@.missing =~= filled(was.missing, i, sequence));
                    lemma_filled(was, self@, i, sequence);
                    let c = choose|c: int|
                        0 <= c < was.missing.len() && (#[trigger] was.missing[c]).start <= sequence
                            <= was.missing[c].end;
                    if c < i {
                        assert(was.missing[c].end < was.missing[i].start);
                    } else if c > i {
                        assert(was.missing[i].end < was.missing[c].start);
                    }
                }
                Ok(())
            },
        }
    }

    /// The bytes of the window.
    pub fn encode(&self) -> (r: Vec<u8>)
        ensures
            r@ == self@.code(),
    {
        let mut out: Vec<u8> = serdes::encode_u64(self.max_seen);
        let count: Vec<u8> = serdes::encode_u64(self.missing.len() as u64);
        le::push_bytes(&mut out, &count);
        let ghost head = out@;
        let mut i: usize = 0;
        assert(self.missing@.take(0) =~= Seq::empty());
        assert(head + Window::ranges_code(self.missing@.take(0)) =~= head);
        while i < self.missing.len()
            invariant
                i <= self.missing@.len(),
                out@ == head + Window::ranges_code(self.missing@.take(i as int)),
            decreases self.missing.len() - i,
        {
            let start: Vec<u8> = serdes::encode_u64(self.missing[i].start);
            let end: Vec<u8> = serdes::encode_u64(self.missing[i].end);
            le::push_bytes(&mut out, &start);
            le::push_bytes(&mut out, &end);
            proof {
                assert(self.missing@.take(i + 1).drop_last() =~= self.missing@.take(i as int));
                assert(out@ =~= head + Window::ranges_code(self.missing@.take(i + 1)));
            }
            i = i + 1;
        }
        assert(self.missing@.take(i as int) =~= self.missing@);
        out
    }

    /// Reads a window back. Bytes that are not those of a window in order give `None`.
    pub fn decode(bytes: &[u8]) -> (r: Option<ReceiptWindow>)
        ensures
            match r {
                Some(w) => w@.wf() && w@.code() == bytes@,
                None => forall|w: Window| w.wf() && w.missing.len() <= u64::MAX ==> #[trigger] w.code() != bytes@,
            },
    {
        assert(bytes@.len() == bytes.len());
        if bytes.len() < 16 || bytes.len() % 16 != 0 {
            proof {
                lemma_no_window(bytes@);
            }
            return None;
        }
        let max_seen: u64 = le::rd_u64(bytes, 0);
        let count: u64 = le::rd_u64(bytes, 8);
        let n: usize = (bytes.len() - 16) / 16;
        if count != n as u64 {
            proof {
                lemma_no_window(bytes@);
            }
            return None;
        }
        let mut missing: Vec<SeqRange> = Vec::new();
        let mut i: usize = 0;
        let ghost head = bytes@.take(16);
        proof {
            le::lemma_le8_inverse(bytes@, 0);
            le::lemma_le8_inverse(bytes@, 8);
            assert(head =~= le::le8(max_seen) + le::le8(count));
            assert(bytes@.subrange(16, 16) =~= Window::ranges_code(missing@));
        }
        while i < n
            invariant
                i <= n,
                bytes@.len() == 16 + 16 * n,
                bytes@.len() <= usize::MAX,
                missing@.len() == i,
                bytes@.subrange(16, 16 + 16 * i) == Window::ranges_code(missing@),
            decreases n - i,
        {
            let at: usize = 16 + 16 * i;
            let start: u64 = le::rd_u64(bytes, at);
            let end: u64 = le::rd_u64(bytes, at + 8);
            let ghost was = missing@;
            missing.push(SeqRange { start, end });
            proof {
                le::lemma_le8_inverse(bytes@, at as int);
                le::lemma_le8_inverse(bytes@, at + 8);
                assert(missing@.drop_last() =~= was);
                assert(bytes@.subrange(16, at + 16) =~= bytes@.subrange(16, at as int) + bytes@.subrange(
                    at as int,
                    at + 8,
                ) + bytes@.subrange(at + 8, at + 16));
            }
            i = i + 1;
        }
        let w = ReceiptWindow { max_seen, missing };
        assert(bytes@ =~= head + bytes@.subrange(16, 16 + 16 * n as int));
        assert(w@.code() =~= bytes@);
        if w.in_order() {
            Some(w)
        } else {
            proof {
                assert forall|v: Window| v.wf() && v.missing.len() <= u64::MAX implies #[trigger] v.code() != bytes@ by {
                    if v.code() == bytes@ {
                        code_is_unique(v, w@);
                    }
                }
            }
            None
        }
    }

    fn in_order(&self) -> (r: bool)
        ensures
            r == self@.wf(),
    {
        let mut i: usize = 0;
        while i < self.missing.len()
            invariant
                i <= self.missing@.len(),
                (Window { max_seen: self.max_seen, missing: self.missing@.take(i as int) }).wf(),
            decreases self.missing.len() - i,
        {
            let range = self.missing[i];
            let ghost was = Window { max_seen: self.max_seen, missing: self.missing@.take(i as int) };
            let ghost now = Window { max_seen: self.max_seen, missing: self.missing@.take(i + 1) };
            if range.start < 1 || range.start > range.end || range.end >= self.max_seen {
                assert(self@.missing[i as int] == range);
                return false;
            }
            if i > 0 && self.missing[i - 1].end >= range.start {
                assert(self@.missing[i - 1].end >= self@.missing[i as int].start);
                return false;
            }
            proof {
                assert forall|a: int| 0 <= a < now.missing.len() implies 1 <= (#[trigger] now.missing[a]).start
                    <= now.missing[a].end < now.max_seen by {
                    if a < i {
                        assert(now.missing[a] == was.missing[a]);
                    }
                }
                assert forall|a: int, b: int| 0 <= a < b < now.missing.len() implies (#[trigger] now.missing[a]).end < (
                #[trigger] now.missing[b]).start by {
                    if b < i {
                        assert(was.missing[a].end < was.missing[b].start);
                    } else if a < i - 1 {
                        assert(was.missing[a].end < was.missing[i - 1].start);
                        assert(was.missing[i - 1].start <= was.missing[i - 1].end);
                    }
                }
            }
            i = i + 1;
        }
        assert(self.missing@.take(i as int) =~= self.missing@);
        true
    }
}

proof fn lemma_ranges_len(missing: Seq<SeqRange>)
    ensures
        Window::ranges_code(missing).len() == 16 * missing.len(),
    decreases missing.len(),
{
    if missing.len() > 0 {
        lemma_ranges_len(missing.drop_last());
    }
}

proof fn lemma_code_head(w: Window)
    requires
        w.missing.len() <= u64::MAX,
    ensures
        w.code().len() == 16 + 16 * w.missing.len(),
        le::u64_at(w.code(), 0) == w.max_seen,
        le::u64_at(w.code(), 8) == w.missing.len(),
{
    lemma_ranges_len(w.missing);
    let b = w.code();
    assert forall|i: int| 0 <= i < 8 implies #[trigger] le::le8(w.max_seen)[i] == b[0 + i] by {}
    le::lemma_le8(b, 0, w.max_seen);
    assert forall|i: int| 0 <= i < 8 implies #[trigger] le::le8(w.missing.len() as u64)[i] == b[8 + i] by {}
    le::lemma_le8(b, 8, w.missing.len() as u64);
}

/// Bytes whose length does not go with their count are no window.
proof fn lemma_no_window(b: Seq<u8>)
    requires
        b.len() < 16 || b.len() % 16 != 0 || le::u64_at(b, 8) != (b.len() - 16) / 16,
    ensures
        forall|w: Window| w.wf() && w.missing.len() <= u64::MAX ==> #[trigger] w.code() != b,
{
    assert forall|w: Window| w.wf() && w.missing.len() <= u64::MAX implies #[trigger] w.code() != b by {
        lemma_code_head(w);
    }
}

proof fn lemma_range_at(missing: Seq<SeqRange>, i: int)
    requires
        0 <= i < missing.len(),
    ensures
        le::u64_at(Window::ranges_code(missing), 16 * i) == missing[i].start,
        le::u64_at(Window::ranges_code(missing), 16 * i + 8) == missing[i].end,
        Window::ranges_code(missing).len() == 16 * missing.len(),
    decreases missing.len(),
{
    let b = Window::ranges_code(missing);
    let d = missing.drop_last();
    let n = missing.len() - 1;
    lemma_ranges_len(missing);
    lemma_ranges_len(d);
    if i == n {
        let (s, e) = (missing[n].start, missing[n].end);
        assert forall|j: int| 0 <= j < 8 implies #[trigger] le::le8(s)[j] == b[16 * n + j] by {}
        le::lemma_le8(b, 16 * n, s);
        assert forall|j: int| 0 <= j < 8 implies #[trigger] le::le8(e)[j] == b[16 * n + 8 + j] by {}
        le::lemma_le8(b, 16 * n + 8, e);
    } else {
        lemma_range_at(d, i);
        let a = Window::ranges_code(d);
        le::lemma_u64_same(a, b, 16 * i, 16 * i);
        le::lemma_u64_same(a, b, 16 * i + 8, 16 * i + 8);
    }
}

/// Different windows have different bytes.
pub proof fn code_is_unique(a: Window, b: Window)
    requires
        a.code() == b.code(),
        a.missing.len() <= u64::MAX,
        b.missing.len() <= u64::MAX,
    ensures
        a == b,
{
    lemma_code_head(a);
    lemma_code_head(b);
    let ra = Window::ranges_code(a.missing);
    let rb = Window::ranges_code(b.missing);
    lemma_ranges_len(a.missing);
    lemma_ranges_len(b.missing);
    assert(ra =~= a.code().skip(16));
    assert(rb =~= b.code().skip(16));
    assert forall|i: int| 0 <= i < a.missing.len() implies a.missing[i] == b.missing[i] by {
        lemma_range_at(a.missing, i);
        lemma_range_at(b.missing, i);
    }
    assert(a.missing =~= b.missing);
}

/// Nothing above the greatest number has been received or is missing.
proof fn lemma_none_above(w: Window, n: u64)
    requires
        w.wf(),
    ensures
        n >= w.max_seen ==> !missing_from(w.missing, n),
{
    if n >= w.max_seen && missing_from(w.missing, n) {
        let i = choose|i: int| 0 <= i < w.missing.len() && (#[trigger] w.missing[i]).start <= n <= w.missing[i].end;
        assert(w.missing[i].end < w.max_seen);
    }
}

/// 0 lies in no range.
proof fn lemma_no_zero(w: Window)
    requires
        w.wf(),
    ensures
        !missing_from(w.missing, 0),
{
    if missing_from(w.missing, 0) {
        let i = choose|i: int| 0 <= i < w.missing.len() && (#[trigger] w.missing[i]).start <= 0 <= w.missing[i].end;
        assert(w.missing[i].start >= 1);
    }
}

proof fn lemma_gap(was: Window, now: Window, gap: SeqRange, sequence: u64)
    requires
        was.wf(),
        sequence > was.max_seen + 1,
        gap.start == was.max_seen + 1,
        gap.end == sequence - 1,
        now.max_seen == sequence,
        now.missing == was.missing.push(gap),
    ensures
        now.wf(),
        forall|n: u64| #[trigger] now.seen(n) == (was.seen(n) || n == sequence),
{
    assert forall|i: int| 0 <= i < now.missing.len() implies 1 <= (#[trigger] now.missing[i]).start
        <= now.missing[i].end < now.max_seen by {
        if i < was.missing.len() {
            assert(now.missing[i] == was.missing[i]);
        }
    }
    assert forall|i: int, j: int| 0 <= i < j < now.missing.len() implies (#[trigger] now.missing[i]).end < (
    #[trigger] now.missing[j]).start by {
        assert(now.missing[i] == was.missing[i]);
        if j < was.missing.len() {
            assert(was.missing[i].end < was.missing[j].start);
        } else {
            assert(was.missing[i].end < was.max_seen);
        }
    }
    assert forall|n: u64| #[trigger] now.seen(n) == (was.seen(n) || n == sequence) by {
        lemma_none_above(now, n);
        if missing_from(was.missing, n) {
            let i = choose|i: int|
                0 <= i < was.missing.len() && (#[trigger] was.missing[i]).start <= n <= was.missing[i].end;
            assert(now.missing[i].start <= n <= now.missing[i].end);
        }
        if missing_from(now.missing, n) {
            let i = choose|i: int|
                0 <= i < now.missing.len() && (#[trigger] now.missing[i]).start <= n <= now.missing[i].end;
            if i < was.missing.len() {
                assert(was.missing[i].start <= n <= was.missing[i].end);
            }
        } else if was.max_seen < n < sequence {
            assert(now.missing[was.missing.len() as int] == gap);
            assert(false);
        }
    }
}

/// Range `i` was replaced by what is left of it without `sequence`.
proof fn lemma_filled(was: Window, now: Window, i: int, sequence: u64)
    requires
        was.wf(),
        0 <= i < was.missing.len(),
        was.missing[i].start <= sequence <= was.missing[i].end,
        now.max_seen == was.max_seen,
        now.missing == filled(was.missing, i, sequence),
    ensures
        now.wf(),
        forall|n: u64| #[trigger] now.seen(n) == (was.seen(n) || n == sequence),
{
    let r = was.missing[i];
    let left = if r.start < sequence {
        seq![SeqRange { start: r.start, end: (sequence - 1) as u64 }]
    } else {
        Seq::empty()
    };
    let right = if sequence < r.end {
        seq![SeqRange { start: (sequence + 1) as u64, end: r.end }]
    } else {
        Seq::empty()
    };
    let l = left.len() as int;
    let k = l + right.len();
    let m = now.missing;
    assert(m.len() == was.missing.len() - 1 + k);
    assert forall|a: int| 0 <= a < i implies #[trigger] m[a] == was.missing[a] by {}
    assert forall|a: int| i + k <= a < m.len() implies #[trigger] m[a] == was.missing[a - k + 1] by {}
    assert(l == 1 ==> m[i] == left[0]);
    assert(k - l == 1 ==> m[i + l] == right[0]);
    assert forall|a: int| 0 <= a < m.len() implies 1 <= (#[trigger] m[a]).start <= m[a].end < now.max_seen by {
        if a < i {
            assert(was.missing[a].start >= 1);
        } else if a >= i + k {
            assert(was.missing[a - k + 1].start >= 1);
        }
    }
    assert forall|a: int, b: int| 0 <= a < b < m.len() implies (#[trigger] m[a]).end < (#[trigger] m[b]).start by {
        if b < i {
            assert(was.missing[a].end < was.missing[b].start);
        } else if a < i && b < i + k {
            assert(was.missing[a].end < was.missing[i].start);
        } else if a < i {
            assert(was.missing[a].end < was.missing[b - k + 1].start);
        } else if a < i + k && b >= i + k {
            assert(was.missing[i].end < was.missing[b - k + 1].start);
        } else if a >= i + k {
            assert(was.missing[a - k + 1].end < was.missing[b - k + 1].start);
        }
    }
    assert forall|n: u64| #[trigger] now.seen(n) == (was.seen(n) || n == sequence) by {
        if missing_from(m, n) {
            let a = choose|a: int| 0 <= a < m.len() && (#[trigger] m[a]).start <= n <= m[a].end;
            let b = if a < i {
                a
            } else if a >= i + k {
                a - k + 1
            } else {
                i
            };
            assert(was.missing[b].start <= n <= was.missing[b].end);
            assert(missing_from(was.missing, n));
            if n == sequence {
                if b < i {
                    assert(was.missing[b].end < was.missing[i].start);
                } else if b > i {
                    assert(was.missing[i].end < was.missing[b].start);
                }
                assert(false);
            }
        }
        if missing_from(was.missing, n) && n != sequence {
            let b = choose|b: int|
                0 <= b < was.missing.len() && (#[trigger] was.missing[b]).start <= n <= was.missing[b].end;
            let a = if b < i {
                b
            } else if b > i {
                b + k - 1
            } else if n < sequence {
                i
            } else {
                i + l
            };
            assert(m[a].start <= n <= m[a].end);
            assert(missing_from(m, n));
        }
        assert(was.missing[i].end < was.max_seen);
    }
}

/// What one more observed event makes of a window.
proof fn lemma_observed(w: Window, n: u64)
    requires
        w.wf(),
        n != 0,
    ensures
        observed(w, n).wf(),
        w.apart() ==> observed(w, n).apart(),
        forall|k: u64| #[trigger] observed(w, n).seen(k) == (w.seen(k) || k == n),
{
    let now = observed(w, n);
    if n > w.max_seen + 1 {
        lemma_gap(w, now, SeqRange { start: (w.max_seen + 1) as u64, end: (n - 1) as u64 }, n);
        if w.apart() {
            assert forall|i: int, j: int| 0 <= i < j < now.missing.len() implies (#[trigger] now.missing[i]).end + 1 < (
            #[trigger] now.missing[j]).start by {
                assert(now.missing[i] == w.missing[i] && w.missing[i].end < w.max_seen);
                if j < w.missing.len() {
                    assert(w.missing[i].end + 1 < w.missing[j].start);
                }
            }
        }
    } else if n > w.max_seen {
        assert forall|k: u64| #[trigger] now.seen(k) == (w.seen(k) || k == n) by {
            lemma_none_above(w, k);
        }
    } else if missing_from(w.missing, n) {
        let i = choose|i: int| 0 <= i < w.missing.len() && (#[trigger] w.missing[i]).start <= n <= w.missing[i].end;
        lemma_filled(w, now, i, n);
        if w.apart() {
            lemma_filled_apart(w, now, i, n);
        }
    }
}

/// Filling a range in keeps the others apart.
proof fn lemma_filled_apart(was: Window, now: Window, i: int, n: u64)
    requires
        was.wf(),
        was.apart(),
        0 <= i < was.missing.len(),
        was.missing[i].start <= n <= was.missing[i].end,
        now.missing == filled(was.missing, i, n),
    ensures
        now.apart(),
{
    let r = was.missing[i];
    let l: int = if r.start < n {
        1
    } else {
        0
    };
    let k: int = if n < r.end {
        l + 1
    } else {
        l
    };
    let m = now.missing;
    assert(m.len() == was.missing.len() - 1 + k);
    assert forall|a: int| 0 <= a < i implies #[trigger] m[a] == was.missing[a] by {}
    assert forall|a: int| i + k <= a < m.len() implies #[trigger] m[a] == was.missing[a - k + 1] by {}
    assert(l == 1 ==> m[i] == (SeqRange { start: r.start, end: (n - 1) as u64 }));
    assert(k > l ==> m[i + l] == (SeqRange { start: (n + 1) as u64, end: r.end }));
    assert forall|a: int, b: int| 0 <= a < b < m.len() implies (#[trigger] m[a]).end + 1 < (
    #[trigger] m[b]).start by {
        if b < i {
            assert(was.missing[a].end + 1 < was.missing[b].start);
        } else if a < i && b < i + k {
            assert(was.missing[a].end + 1 < was.missing[i].start);
        } else if a < i {
            assert(was.missing[a].end + 1 < was.missing[b - k + 1].start);
        } else if a < i + k && b >= i + k {
            assert(was.missing[i].end + 1 < was.missing[b - k + 1].start);
        } else if a >= i + k {
            assert(was.missing[a - k + 1].end + 1 < was.missing[b - k + 1].start);
        }
    }
}

/// Ranges that rise with something between them.
spec fn rising(m: Seq<SeqRange>) -> bool {
    &&& forall|i: int| 0 <= i < m.len() ==> (#[trigger] m[i]).start <= m[i].end < u64::MAX
    &&& forall|i: int, j: int| 0 <= i < j < m.len() ==> (#[trigger] m[i]).end + 1 < (#[trigger] m[j]).start
}

/// The first of the ranges begins where the other's first begins, and ends no later.
proof fn lemma_first_range(a: Seq<SeqRange>, b: Seq<SeqRange>)
    requires
        rising(a),
        rising(b),
        a.len() > 0,
        forall|n: u64| missing_from(a, n) == #[trigger] missing_from(b, n),
    ensures
        b.len() > 0,
        b[0].start <= a[0].start,
        a[0].start == b[0].start ==> a[0].end <= b[0].end,
{
    assert(missing_from(a, a[0].start));
    assert(missing_from(b, a[0].start));
    let i = choose|i: int| 0 <= i < b.len() && (#[trigger] b[i]).start <= a[0].start <= b[i].end;
    if i > 0 {
        assert(b[0].end + 1 < b[i].start);
    }
    if a[0].start == b[0].start && a[0].end > b[0].end {
        let n = (b[0].end + 1) as u64;
        assert(a[0].start <= n <= a[0].end);
        assert(missing_from(a, n));
        assert(missing_from(b, n));
        let j = choose|j: int| 0 <= j < b.len() && (#[trigger] b[j]).start <= n <= b[j].end;
        if j > 0 {
            assert(b[0].end + 1 < b[j].start);
        }
        assert(false);
    }
}

/// Such ranges are settled by what they hold.
proof fn lemma_same_ranges(a: Seq<SeqRange>, b: Seq<SeqRange>)
    requires
        rising(a),
        rising(b),
        forall|n: u64| missing_from(a, n) == #[trigger] missing_from(b, n),
    ensures
        a == b,
    decreases a.len(),
{
    if a.len() == 0 {
        if b.len() > 0 {
            assert(missing_from(b, b[0].start));
            assert(missing_from(a, b[0].start));
        }
        assert(a =~= b);
    } else {
        lemma_first_range(a, b);
        assert forall|n: u64| missing_from(b, n) == #[trigger] missing_from(a, n) by {
            assert(missing_from(b, n) == missing_from(a, n));
        }
        lemma_first_range(b, a);
        let c = a.skip(1);
        let d = b.skip(1);
        assert forall|i: int| 0 <= i < c.len() implies #[trigger] c[i] == a[i + 1] by {}
        assert forall|i: int| 0 <= i < d.len() implies #[trigger] d[i] == b[i + 1] by {}
        lemma_rest(a);
        lemma_rest(b);
        assert forall|n: u64| missing_from(c, n) == #[trigger] missing_from(d, n) by {
            assert(missing_from(a, n) == missing_from(b, n));
        }
        lemma_same_ranges(c, d);
        assert(a =~= seq![a[0]] + c);
        assert(b =~= seq![b[0]] + d);
    }
}

/// Without the first range, the rest holds what lies behind it.
proof fn lemma_rest(a: Seq<SeqRange>)
    requires
        rising(a),
        a.len() > 0,
    ensures
        rising(a.skip(1)),
        forall|n: u64| #[trigger] missing_from(a.skip(1), n) == (missing_from(a, n) && n > a[0].end),
{
    let c = a.skip(1);
    assert forall|i: int| 0 <= i < c.len() implies (#[trigger] c[i]).start <= c[i].end < u64::MAX by {
        assert(c[i] == a[i + 1]);
    }
    assert forall|i: int, j: int| 0 <= i < j < c.len() implies (#[trigger] c[i]).end + 1 < (#[trigger] c[j]).start by {
        assert(c[i] == a[i + 1] && c[j] == a[j + 1]);
    }
    assert forall|n: u64| #[trigger] missing_from(c, n) == (missing_from(a, n) && n > a[0].end) by {
        if missing_from(c, n) {
            let i = choose|i: int| 0 <= i < c.len() && (#[trigger] c[i]).start <= n <= c[i].end;
            assert(c[i] == a[i + 1]);
            assert(a[0].end + 1 < a[i + 1].start);
            assert(a[i + 1].start <= n <= a[i + 1].end);
        }
        if missing_from(a, n) && n > a[0].end {
            let i = choose|i: int| 0 <= i < a.len() && (#[trigger] a[i]).start <= n <= a[i].end;
            assert(i > 0);
            assert(c[i - 1] == a[i]);
            assert(c[i - 1].start <= n <= c[i - 1].end);
        }
    }
}

/// Two windows that have seen the same events are the same window.
pub proof fn seen_settles_window(a: Window, b: Window)
    requires
        a.wf(),
        a.apart(),
        b.wf(),
        b.apart(),
        forall|n: u64| a.seen(n) == #[trigger] b.seen(n),
    ensures
        a == b,
{
    if a.max_seen > 0 {
        lemma_none_above(a, a.max_seen);
        assert(a.seen(a.max_seen));
        assert(b.seen(a.max_seen));
    }
    if b.max_seen > 0 {
        lemma_none_above(b, b.max_seen);
        assert(b.seen(b.max_seen));
        assert(a.seen(b.max_seen));
    }
    assert(a.max_seen == b.max_seen);
    assert forall|n: u64| missing_from(a.missing, n) == #[trigger] missing_from(b.missing, n) by {
        assert(a.seen(n) == b.seen(n));
        lemma_none_above(a, n);
        lemma_none_above(b, n);
        lemma_no_zero(a);
        lemma_no_zero(b);
    }
    lemma_same_ranges(a.missing, b.missing);
}

/// Observing two events gives one window, whichever comes first.
pub proof fn observing_commutes(w: Window, a: u64, b: u64)
    requires
        w.wf(),
        w.apart(),
        a != 0,
        b != 0,
    ensures
        observed(observed(w, a), b) == observed(observed(w, b), a),
{
    lemma_observed(w, a);
    lemma_observed(w, b);
    let x = observed(observed(w, a), b);
    let y = observed(observed(w, b), a);
    lemma_observed(observed(w, a), b);
    lemma_observed(observed(w, b), a);
    assert forall|n: u64| x.seen(n) == #[trigger] y.seen(n) by {
        assert(observed(w, a).seen(n) == (w.seen(n) || n == a));
        assert(observed(w, b).seen(n) == (w.seen(n) || n == b));
    }
    seen_settles_window(x, y);
}

/// Observing an event a second time changes nothing, and windows stay fit for that: they begin
/// apart and stay so.
pub proof fn observing_again(w: Window, n: u64)
    requires
        w.wf(),
        n != 0,
    ensures
        observed(observed(w, n), n) == observed(w, n),
        no_receipts().apart(),
        w.apart() ==> observed(w, n).apart(),
{
    lemma_observed(w, n);
    let now = observed(w, n);
    assert(now.seen(n));
}

} // verus!
