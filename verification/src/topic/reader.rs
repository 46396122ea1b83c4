//! Reading a topic from any offset.

use crate::error::StorageError;
use crate::topic::segment;
use crate::topic::segment::SegmentLog;
use vstd::prelude::*;

verus! {

/// Where to go in a topic.
#[derive(Clone, Copy, Debug, PartialEq, Eq, Structural)]
pub enum SeekTarget {
    /// The record with this offset.
    Offset(u64),
    /// The first retained record.
    Earliest,
    /// Behind the last record.
    Latest,
}

/// A place inside a segment: where the segment starts, and the byte at which the next record
/// does.
pub struct SegmentCursor {
    base: u64,
    at: usize,
}

/// Reads records one after the other. It is not registered with the topic, which may drop
/// records before they are read.
pub struct TopicReader {
    offset: u64,
    current: Option<SegmentCursor>,
}

/// A record and its offset.
pub open spec fn at_offset(log: &SegmentLog, o: int) -> (int, Seq<u8>) {
    (o, log.records()[o - log.earliest()])
}

/// What a reader finds that looks for offset `o` among the retained records: the record there,
/// or the first one where that one is gone.
pub open spec fn found_from(log: &SegmentLog, o: int) -> Option<(int, Seq<u8>)> {
    let from = if o < log.earliest() {
        log.earliest() as int
    } else {
        o
    };
    if from >= log.next() {
        None
    } else {
        Some(at_offset(log, from))
    }
}

impl TopicReader {
    /// The offset of the record that is read next.
    pub closed spec fn offset(&self) -> u64 {
        self.offset
    }

    /// The start of the segment in which the reader stands, if it stands in one.
    pub closed spec fn stands_in(&self) -> Option<u64> {
        match self.current {
            Some(c) => Some(c.base),
            None => None,
        }
    }

    /// The reader fits the topic.
    pub closed spec fn ok(&self, log: &SegmentLog) -> bool {
        self.current matches Some(c) ==> {
            &&& c.base < log.next()
            &&& forall|i: int|
                0 <= i < log.held().len() && (#[trigger] log.held()[i]).base() == c.base ==> self.offset
                    <= log.held()[i].end() && c.base <= self.offset && c.at == segment::start_of(
                    log.held()[i].recs(),
                    self.offset - c.base,
                )
        }
    }

    /// The reader stands in segment `i`, before a record of it.
    pub open spec fn stands_at(&self, log: &SegmentLog, i: int) -> bool {
        &&& 0 <= i < log.held().len()
        &&& self.stands_in() == Some(log.held()[i].base())
        &&& self.offset() < log.held()[i].end()
    }

    /// The reader stands in a segment that has a record for it.
    pub open spec fn stands(&self, log: &SegmentLog) -> bool {
        exists|i: int| #[trigger] self.stands_at(log, i)
    }

    /// What the reader finds next. It reads on in the segment in which it stands, even where
    /// the topic does not retain that segment any more.
    pub open spec fn finds(&self, log: &SegmentLog) -> Option<(int, Seq<u8>)> {
        if self.stands(log) {
            let i = choose|i: int| #[trigger] self.stands_at(log, i);
            Some((self.offset() as int, log.held()[i].recs()[self.offset() - log.held()[i].base()]))
        } else {
            found_from(log, self.offset() as int)
        }
    }

    /// A reader at an offset.
    pub fn at(offset: u64) -> (r: Self)
        ensures
            r.offset() == offset,
            r.stands_in() is None,
            forall|log: &SegmentLog| #[trigger] r.ok(log),
    {
        TopicReader { offset, current: None }
    }

    /// The offset of the record that is read next.
    pub fn offset_now(&self) -> (r: u64)
        ensures
            r == self.offset(),
    {
        self.offset
    }

    /// Moves to an offset. The segment in which the reader stood is let go.
    pub fn set_offset(&mut self, offset: u64, log: &mut SegmentLog)
        requires
            old(log).wf(),
        ensures
            final(log).wf(),
            final(log).same(*old(log)),
            old(log).let_out(final(log), old(self).stands_in()),
            forall|b: u64| #[trigger]
                final(log).cursors(b) == old(log).cursors(b) - (if old(self).stands_in() == Some(b) && old(log).cursors(b)
                    > 0 {
                    1int
                } else {
                    0
                }),
            segment::grew(old(log).held(), final(log).held(), old(log).next()),
            final(self).offset() == offset,
            final(self).stands_in() is None,
            final(self).ok(final(log)),
    {
        self.let_go(log);
        self.offset = offset;
    }

    /// Lets the segment go in which the reader stands.
    pub fn let_go(&mut self, log: &mut SegmentLog)
        requires
            old(log).wf(),
        ensures
            final(log).wf(),
            final(log).same(*old(log)),
            segment::grew(old(log).held(), final(log).held(), old(log).next()),
            old(log).let_out(final(log), old(self).stands_in()),
            forall|b: u64| #[trigger]
                final(log).cursors(b) == old(log).cursors(b) - (if old(self).stands_in() == Some(b) && old(log).cursors(b)
                    > 0 {
                    1int
                } else {
                    0
                }),
            final(self).offset() == old(self).offset(),
            final(self).stands_in() is None,
            final(self).ok(final(log)),
    {
        match &self.current {
            Some(c) => {
                log.release(c.base);
            },
            None => {
                proof {
                    segment::lemma_grew_same(log.held(), log.next());
                }
            },
        }
        self.current = None;
    }

    /// Goes to a target. Gives whether there is a record.
    pub fn seek(&mut self, target: SeekTarget, log: &mut SegmentLog) -> (r: bool)
        requires
            old(log).wf(),
        ensures
            final(log).wf(),
            final(log).same(*old(log)),
            old(log).let_out(final(log), old(self).stands_in()),
            forall|b: u64| #[trigger]
                final(log).cursors(b) == old(log).cursors(b) - (if old(self).stands_in() == Some(b) && old(log).cursors(b)
                    > 0 {
                    1int
                } else {
                    0
                }),
            segment::grew(old(log).held(), final(log).held(), old(log).next()),
            final(self).stands_in() is None,
            final(self).ok(final(log)),
            match target {
                SeekTarget::Offset(o) => final(self).offset() == o && r == (o < old(log).next()),
                SeekTarget::Earliest => final(self).offset() == old(log).earliest() && r == (old(log).earliest() < old(
                    log,
                ).next()),
                SeekTarget::Latest => final(self).offset() == old(log).next() && !r,
            },
    {
        let next: u64 = log.next_offset();
        match target {
            SeekTarget::Offset(o) => {
                self.set_offset(o, log);
                o < next
            },
            SeekTarget::Earliest => {
                let o: u64 = log.earliest_offset();
                self.set_offset(o, log);
                o < next
            },
            SeekTarget::Latest => {
                self.set_offset(next, log);
                false
            },
        }
    }

    /// Goes to the first retained record whose first `size` bytes meet the predicate, or behind
    /// the last record where there is none. Gives whether there is one. Fails at a record that
    /// is shorter.
    pub fn seek_prefix<F: Fn(&[u8]) -> bool>(&mut self, size: usize, predicate: F, log: &mut SegmentLog) -> (r: Result<
        bool,
        StorageError,
    >)
        requires
            old(log).wf(),
            forall|b: &[u8]| #[trigger] call_requires(predicate, (b,)),
        ensures
            final(log).wf(),
            final(log).same(*old(log)),
            segment::grew(old(log).held(), final(log).held(), old(log).next()),
            match r {
                Ok(true) => {
                    &&& old(log).earliest() <= final(self).offset() < old(log).next()
                    &&& final(self).stands_in() is None
                    &&& final(self).ok(final(log))
                    &&& passed_over(old(log), size as int, predicate, final(self).offset() as int)
                    &&& judged(old(log), size as int, predicate, final(self).offset() as int, true)
                },
                Ok(false) => {
                    &&& final(self).offset() == old(log).next()
                    &&& final(self).stands_in() is None
                    &&& final(self).ok(final(log))
                    &&& passed_over(old(log), size as int, predicate, old(log).next() as int)
                },
                Err(e) => {
                    &&& e == StorageError::UnexpectedEof
                    &&& *final(self) == *old(self)
                    &&& exists|o: int| #[trigger]
                        cut_short(old(log), size as int, o) && passed_over(old(log), size as int, predicate, o)
                },
            },
            // With their first bytes, the record that was found meets the predicate, and none of the retained
            // ones before it does.
            r is Ok ==> forall|i: int|
                0 <= i < final(self).offset() - old(log).earliest() ==> (#[trigger] old(log).records()[i]).len() >= size
                    && exists|b: &[u8]|
                    b@ == old(log).records()[i].take(size as int) && #[trigger] call_ensures(predicate, (b,), false),
            r == Ok::<bool, StorageError>(true) ==> {
                let found = old(log).records()[final(self).offset() - old(log).earliest()];
                found.len() >= size && exists|b: &[u8]|
                    b@ == found.take(size as int) && #[trigger] call_ensures(predicate, (b,), true)
            },
    {
        let next: u64 = log.next_offset();
        let mut o: u64 = log.earliest_offset();
        proof {
            log.lemma_wf();
        }
        while o < next
            invariant
                log.wf(),
                *self == *old(self),
                *log == *old(log),
                next == log.next(),
                log.earliest() <= o <= next,
                forall|b: &[u8]| #[trigger] call_requires(predicate, (b,)),
                passed_over(log, size as int, predicate, o as int),
            decreases next - o,
        {
            let i: usize = log.find_offset(o);
            let at: usize = log.locate(i, o);
            let (record, _) = log.read(i, o, at);
            if record.len() < size {
                proof {
                    segment::lemma_grew_same(log.held(), log.next());
                    assert(cut_short(log, size as int, o as int));
                }
                return Err(StorageError::UnexpectedEof);
            }
            let head: &[u8] = vstd::slice::slice_subrange(record.as_slice(), 0, size);
            let hit: bool = predicate(head);
            proof {
                assert(head@ == log.records()[o - log.earliest()].subrange(0, size as int));
                assert(call_ensures(predicate, (head,), hit));
                assert(judged(log, size as int, predicate, o as int, hit));
            }
            if hit {
                proof {
                    lemma_passed(*log, size as int, predicate, o as int);
                }
                self.set_offset(o, log);
                return Ok(true);
            }
            o = o + 1;
        }
        proof {
            lemma_passed(*log, size as int, predicate, next as int);
        }
        self.set_offset(next, log);
        Ok(false)
    }

    /// The next record and its offset, or `None` where there is none.
    pub fn next(&mut self, log: &mut SegmentLog) -> (r: Option<(u64, Vec<u8>)>)
        requires
            old(log).wf(),
            old(self).ok(old(log)),
        ensures
            final(log).wf(),
            final(log).same(*old(log)),
            segment::grew(old(log).held(), final(log).held(), old(log).next()),
            final(self).ok(final(log)),
            match r {
                Some((o, v)) => old(self).finds(old(log)) == Some((o as int, v@)) && final(self).offset() == o + 1,
                None => old(self).finds(old(log)) is None && final(self).offset() == old(log).next(),
            },
            // The record at the reader's offset, where it is retained; and for a reader in no segment whose
            // record is gone, the first that is.
            old(self).offset() >= old(log).earliest() ==> match r {
                Some((o, v)) => o == old(self).offset() && o < old(log).next()
                    && v@ == old(log).records()[o - old(log).earliest()]
                    && final(self).offset() == o + 1,
                None => old(self).offset() >= old(log).next(),
            },
            old(self).offset() < old(log).earliest() && old(self).stands_in() is None ==> match r {
                Some((o, v)) => o == old(log).earliest() && o < old(log).next() && v@ == old(log).records()[0]
                    && final(self).offset() == o + 1,
                None => old(log).earliest() == old(log).next(),
            },
            // It is counted as one cursor in the segment in which it stands, and in no other.
            (forall|b: u64| #[trigger]
                old(log).cursors(b) < u64::MAX && (old(self).stands_in() == Some(b) ==> old(log).cursors(b) > 0))
                ==> forall|b: u64| #[trigger]
                final(log).cursors(b) - (if final(self).stands_in() == Some(b) {
                    1int
                } else {
                    0
                }) == old(log).cursors(b) - (if old(self).stands_in() == Some(b) {
                    1int
                } else {
                    0
                }),
    {
        let ghost log0 = *log;
        let ghost me0 = *self;
        proof {
            if me0.offset() >= log0.earliest() {
                reads_its_offset(me0, log0);
            } else if me0.stands_in() is None {
                assert forall|j: int| !(#[trigger] me0.stands_at(&log0, j)) by {}
                log0.lemma_wf();
            }
        }
        let next: u64 = log.next_offset();
        proof {
            log.lemma_wf();
            segment::lemma_grew_same(log.held(), log.next());
        }
        if let Some(c) = &self.current {
            match log.find_base(c.base) {
                Some(i) => {
                    let (base, end) = log.span(i);
                    if self.offset < end {
                        let (record, at) = log.read(i, self.offset, c.at);
                        let o: u64 = self.offset;
                        proof {
                            assert(me0.stands_at(&log0, i as int));
                            me0.lemma_one_place(&log0, i as int);
                        }
                        self.current = Some(SegmentCursor { base, at });
                        self.offset = o + 1;
                        proof {
                            assert forall|j: int| 0 <= j < log.held().len() && (#[trigger] log.held()[j]).base()
                                == base implies j == i by {
                                segment::lemma_one_base(log.held(), i as int, j);
                            }
                        }
                        return Some((o, record));
                    }
                    proof {
                        me0.lemma_no_place(&log0, i as int);
                        log0.lemma_end(i as int);
                    }
                    if self.offset >= next {
                        return None;
                    }
                },
                None => {
                    proof {
                        assert forall|j: int| !(#[trigger] me0.stands_at(&log0, j)) by {}
                    }
                },
            }
        }
        assert(!me0.stands(&log0)) by {
            if me0.current is None {
                assert forall|j: int| !(#[trigger] me0.stands_at(&log0, j)) by {}
            }
        }
        self.let_go(log);
        let ghost log1 = *log;
        let first: u64 = log.earliest_offset();
        if self.offset < first {
            self.offset = first;
        }
        if self.offset >= next {
            self.offset = next;
            return None;
        }
        let o: u64 = self.offset;
        let i: usize = log.find_offset(o);
        let from: usize = log.locate(i, o);
        let (record, at) = log.read(i, o, from);
        let (base, end) = log.span(i);
        proof {
            log1.lemma_cursors(i as int);
            assert(log1.cursors(base) <= log0.cursors(base));
        }
        log.pin(i);
        self.current = Some(SegmentCursor { base, at });
        self.offset = o + 1;
        proof {
            segment::lemma_grew_trans(log0.held(), log1.held(), log.held(), log0.next(), log1.next());
            assert forall|j: int| 0 <= j < log.held().len() && (#[trigger] log.held()[j]).base() == base implies j == i by {
                log.lemma_wf();
                segment::lemma_one_base(log.held(), i as int, j);
            }
            log1.lemma_end(i as int);
            log.lemma_end(i as int);
            assert(log.held()[i as int].recs() == log1.held()[i as int].recs());
        }
        Some((o, record))
    }

    /// A reader that stands before a record is not behind the last one.
    pub proof fn lemma_stands_before_end(&self, log: &SegmentLog)
        requires
            log.wf(),
        ensures
            self.stands(log) ==> self.offset() < log.next() && self.finds(log) is Some && self.finds(log)->Some_0.0
                == self.offset(),
    {
        if self.stands(log) {
            let i = choose|i: int| #[trigger] self.stands_at(log, i);
            log.lemma_end(i);
        }
    }

    proof fn lemma_one_place(&self, log: &SegmentLog, i: int)
        requires
            log.wf(),
            self.stands_at(log, i),
        ensures
            self.finds(log) == Some(
                (self.offset() as int, log.held()[i].recs()[self.offset() - log.held()[i].base()]),
            ),
    {
        let j = choose|j: int| #[trigger] self.stands_at(log, j);
        log.lemma_wf();
        segment::lemma_one_base(log.held(), i, j);
    }

    proof fn lemma_no_place(&self, log: &SegmentLog, i: int)
        requires
            log.wf(),
            0 <= i < log.held().len(),
            self.stands_in() == Some(log.held()[i].base()),
            self.offset() >= log.held()[i].end(),
        ensures
            !self.stands(log),
    {
        log.lemma_wf();
        assert forall|j: int| !(#[trigger] self.stands_at(log, j)) by {
            if self.stands_at(log, j) {
                segment::lemma_one_base(log.held(), i, j);
            }
        }
    }
}

/// What the predicate says of the first `size` bytes of the record at an offset.
pub open spec fn judged<F: Fn(&[u8]) -> bool>(
    log: &SegmentLog,
    size: int,
    predicate: F,
    o: int,
    verdict: bool,
) -> bool {
    &&& log.records()[o - log.earliest()].len() >= size
    &&& exists|b: &[u8]|
        b@ == log.records()[o - log.earliest()].subrange(0, size) && #[trigger] call_ensures(predicate, (b,), verdict)
}

/// None of the retained records before an offset meets the predicate.
pub open spec fn passed_over<F: Fn(&[u8]) -> bool>(log: &SegmentLog, size: int, predicate: F, end: int) -> bool {
    forall|o: int| log.earliest() <= o < end ==> #[trigger] judged(log, size, predicate, o, false)
}

proof fn lemma_passed<F: Fn(&[u8]) -> bool>(log: SegmentLog, size: int, predicate: F, end: int)
    requires
        passed_over(&log, size, predicate, end),
    ensures
        forall|i: int|
            0 <= i < end - log.earliest() ==> (#[trigger] log.records()[i]).len() >= size && exists|b: &[u8]|
                b@ == log.records()[i].take(size) && #[trigger] call_ensures(predicate, (b,), false),
{
    assert forall|i: int| 0 <= i < end - log.earliest() implies (#[trigger] log.records()[i]).len() >= size && exists|
        b: &[u8],
    | b@ == log.records()[i].take(size) && #[trigger] call_ensures(predicate, (b,), false) by {
        assert(judged(&log, size, predicate, i + log.earliest(), false));
    }
}

/// The record at an offset is shorter than `size` bytes.
pub open spec fn cut_short(log: &SegmentLog, size: int, o: int) -> bool {
    log.earliest() <= o < log.next() && log.records()[o - log.earliest()].len() < size
}

/// A reader that is not behind the retained records reads the record at its offset, wherever
/// it stands.
pub proof fn reads_its_offset(reader: TopicReader, log: SegmentLog)
    requires
        log.wf(),
        reader.ok(&log),
        log.earliest() <= reader.offset(),
    ensures
        reader.finds(&log) == (if reader.offset() < log.next() {
            Some(at_offset(&log, reader.offset() as int))
        } else {
            None
        }),
{
    log.lemma_wf();
    if reader.stands(&log) {
        let i = choose|i: int| #[trigger] reader.stands_at(&log, i);
        log.lemma_held_record(i, reader.offset() as int);
        reader.lemma_one_place(&log, i);
    }
}

/// A reader that fits a topic still does after the topic has grown: appends, rotations and
/// compactions do not disturb it.
pub proof fn growth_keeps_readers(reader: TopicReader, before: SegmentLog, after: SegmentLog)
    requires
        before.wf(),
        after.wf(),
        segment::grew(before.held(), after.held(), before.next()),
        before.next() <= after.next(),
        reader.ok(&before),
    ensures
        reader.ok(&after),
{
    if reader.current is Some {
        let c = reader.current->0;
        assert forall|j: int| 0 <= j < after.held().len() && (#[trigger] after.held()[j]).base() == c.base implies
            reader.offset <= after.held()[j].end() && c.base <= reader.offset && c.at == segment::start_of(
            after.held()[j].recs(),
            reader.offset - c.base,
        ) by {
            let t = after.held()[j];
            segment::lemma_grew_at(before.held(), after.held(), before.next(), j);
            let i = choose|i: int| 0 <= i < before.held().len() && segment::prolongs(#[trigger] before.held()[i], t);
            before.lemma_end(i);
            after.lemma_end(j);
            let s = before.held()[i];
            assert(s.base() == c.base);
            let n = reader.offset - c.base;
            assert(t.recs().take(n) =~= s.recs().take(n));
        }
    }
}

} // verus!
