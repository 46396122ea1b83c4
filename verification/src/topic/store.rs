//! The records of a topic and its consumers.

use crate::engine::keydir;
use crate::engine::keydir::KeyDir;
use crate::engine::keydir::KeyDirConfig;
use crate::engine::log;
use crate::engine::maps;
use crate::error::StorageError;
use crate::topic::reader;
use crate::topic::reader::SeekTarget;
use crate::topic::reader::TopicReader;
use crate::topic::registry::Registry;
use crate::topic::registry::Standing;
use crate::topic::segment;
use crate::topic::segment::Segment;
use crate::topic::segment::SegmentLog;
use crate::utils::le;
use crate::utils::serdes;
use crate::utils::vecs;
use vstd::prelude::*;

verus! {

/// Longest name of a consumer.
pub const MAX_NAME: usize = 0xFFFF_0000;

/// Counters of a topic.
#[derive(Clone, Copy, Debug, PartialEq, Eq, Structural)]
pub struct TopicStats {
    pub earliest_offset: u64,
    pub next_offset: u64,
    pub records: u64,
    pub retained_bytes: u64,
}

/// Segments, consumers, and the store in which their committed offsets are kept.
pub struct TopicStore {
    log: SegmentLog,
    consumers: Registry,
    offsets: KeyDir,
    max_segment_bytes: u64,
}

/// The committed offsets are kept under the names of the consumers.
pub open spec fn offsets_match(m: Map<Seq<u8>, Seq<u8>>, consumers: Map<Seq<u8>, Standing>) -> bool {
    &&& forall|n: Seq<u8>| #[trigger]
        consumers.contains_key(n) ==> n.len() <= MAX_NAME && m.contains_key(serdes::bytes_code(n))
            && m[serdes::bytes_code(n)] == le::le8(consumers[n].committed)
    &&& forall|k: Seq<u8>| #[trigger] m.contains_key(k) ==> named(k, consumers)
}

/// The key of a consumer.
pub open spec fn named(k: Seq<u8>, consumers: Map<Seq<u8>, Standing>) -> bool {
    exists|n: Seq<u8>| #[trigger] consumers.contains_key(n) && k == serdes::bytes_code(n)
}

/// The least committed offset.
pub open spec fn is_least(consumers: Map<Seq<u8>, Standing>, c: u64) -> bool {
    &&& forall|k: Seq<u8>| #[trigger] consumers.contains_key(k) ==> c <= consumers[k].committed
    &&& exists|k: Seq<u8>| #[trigger] consumers.contains_key(k) && consumers[k].committed == c
}

/// How many segments at the front no consumer needs any more.
pub open spec fn done_with(bs: Seq<(u64, u64)>, consumers: Map<Seq<u8>, Standing>) -> int {
    if consumers == Map::<Seq<u8>, Standing>::empty() {
        0
    } else {
        segment::droppable(bs, choose|c: u64| is_least(consumers, c))
    }
}

/// The bounds of the segments with a record appended: in a new segment where the last one is
/// full, which drops what no consumer needs any more.
pub open spec fn appended_bounds(
    bs: Seq<(u64, u64)>,
    full: bool,
    next: u64,
    consumers: Map<Seq<u8>, Standing>,
) -> Seq<(u64, u64)> {
    let a = if full {
        bs.push((next, next))
    } else {
        bs
    };
    let b = if full {
        a.skip(done_with(a, consumers))
    } else {
        a
    };
    b.update(b.len() - 1, (b.last().0, (next + 1) as u64))
}

/// The consumers as the stored offsets have them: none active, each back at what it committed.
pub open spec fn standings_from(m: Map<Seq<u8>, Seq<u8>>, consumers: Map<Seq<u8>, Standing>) -> bool {
    &&& offsets_match(m, consumers)
    &&& forall|n: Seq<u8>| #[trigger]
        consumers.contains_key(n) ==> !consumers[n].active && consumers[n].volatile == consumers[n].committed
}

/// The offset of a consumer was stored behind the others.
pub open spec fn offset_stored(before: KeyDir, after: KeyDir, name: Seq<u8>, offset: u64) -> bool {
    after.recs() == log::settled(
        before.config_view().compaction_ratio,
        before.recs().push(log::Rec::Put(serdes::bytes_code(name), le::le8(offset))),
    )
}

/// The offset of a consumer was buried.
pub open spec fn offset_buried(before: KeyDir, after: KeyDir, name: Seq<u8>) -> bool {
    after.recs() == log::settled(
        before.config_view().compaction_ratio,
        before.recs().push(log::Rec::Del(serdes::bytes_code(name))),
    )
}

/// A stored offset that belongs to a consumer.
pub open spec fn entry_ok(k: Seq<u8>, v: Seq<u8>) -> bool {
    &&& k.len() >= 8
    &&& k == serdes::bytes_code(k.skip(8))
    &&& k.skip(8).len() <= MAX_NAME
    &&& v.len() == 8
}

/// All stored offsets belong to consumers.
pub open spec fn entries_ok(m: Map<Seq<u8>, Seq<u8>>) -> bool {
    forall|k: Seq<u8>| #[trigger] m.contains_key(k) ==> entry_ok(k, m[k])
}

/// A consumer of a topic that is opened again stands where it committed, whatever it had read
/// since: `m` is what the store of the offsets holds.
pub proof fn reopening_keeps_commits(
    m: Map<Seq<u8>, Seq<u8>>,
    before: Map<Seq<u8>, Standing>,
    after: Map<Seq<u8>, Standing>,
)
    requires
        offsets_match(m, before),
        standings_from(m, after),
    ensures
        after.dom() == before.dom(),
        forall|n: Seq<u8>| #[trigger]
            before.contains_key(n) ==> after[n] == (Standing {
                committed: before[n].committed,
                volatile: before[n].committed,
                active: false,
            }),
        entries_ok(m),
{
    assert forall|n: Seq<u8>| #[trigger] before.contains_key(n) implies after.contains_key(n) && after[n] == (Standing {
        committed: before[n].committed,
        volatile: before[n].committed,
        active: false,
    }) by {
        let k = serdes::bytes_code(n);
        assert(m.contains_key(k));
        assert(named(k, after));
        let o = choose|o: Seq<u8>| #[trigger] after.contains_key(o) && k == serdes::bytes_code(o);
        serdes::lemma_bytes_code_injective(n, o);
        serdes::lemma_u64_code(before[n].committed);
        serdes::lemma_u64_code(after[n].committed);
    }
    assert forall|n: Seq<u8>| #[trigger] after.contains_key(n) implies before.contains_key(n) by {
        let k = serdes::bytes_code(n);
        assert(m.contains_key(k));
        assert(named(k, before));
        let o = choose|o: Seq<u8>| #[trigger] before.contains_key(o) && k == serdes::bytes_code(o);
        serdes::lemma_bytes_code_injective(n, o);
    }
    assert(after.dom() =~= before.dom());
    assert forall|k: Seq<u8>| #[trigger] m.contains_key(k) implies entry_ok(k, m[k]) by {
        assert(named(k, before));
        let o = choose|o: Seq<u8>| #[trigger] before.contains_key(o) && k == serdes::bytes_code(o);
        serdes::lemma_bytes_code(o);
        assert(k.skip(8) =~= o);
    }
}

/// Some consumer still needs the first segment, if it is not the last and there are consumers.
#[verifier::opaque]
spec fn waits_for(segs: Seq<Segment>, consumers: Map<Seq<u8>, Standing>) -> bool {
    segs.len() > 1 && !consumers.is_empty() ==> exists|n: Seq<u8>| #[trigger]
        consumers.contains_key(n) && consumers[n].committed < segs[0].end()
}

/// The length of a segment with one more record.
proof fn lemma_one_more(rs: Seq<Seq<u8>>, record: Seq<u8>)
    ensures
        segment::segment_bytes(rs.push(record)).len() == segment::segment_bytes(rs).len() + 4 + record.len(),
{
    assert(rs.push(record).drop_last() =~= rs);
}

/// Segments whose last one got a record behind the others, or where the record started a segment
/// and some at the front have gone: those that stay are as they were, and no segment of more than
/// one record passes the limit that did not before.
proof fn lemma_limit(before: Seq<Segment>, after: Seq<Segment>, d: int, record: Seq<u8>, max: u64)
    requires
        before.len() > 0,
        after.len() > 0,
        0 <= d,
        ({
            ||| {
                &&& d == 0
                &&& after.len() == before.len()
                &&& after.last().recs() == before.last().recs().push(record)
                &&& before.last().recs().len() == 0 || segment::segment_bytes(before.last().recs().push(record)).len()
                    <= max
            }
            ||| after.len() + d == before.len() + 1 && after.last().recs() == seq![record]
        }),
        forall|i: int| 0 <= i < after.len() - 1 ==> #[trigger] after[i] == before[i + d],
    ensures
        after.last().recs().len() > 1 ==> segment::segment_bytes(after.last().recs()).len() <= max,
        forall|i: int| 0 <= i < after.len() - 1 ==> before.contains(#[trigger] after[i]),
        (forall|i: int|
            0 <= i < before.len() && (#[trigger] before[i]).recs().len() > 1 ==> segment::segment_bytes(
                before[i].recs(),
            ).len() <= max) ==> forall|i: int|
            0 <= i < after.len() && (#[trigger] after[i]).recs().len() > 1 ==> segment::segment_bytes(
                after[i].recs(),
            ).len() <= max,
{
    assert forall|i: int| 0 <= i < after.len() - 1 implies before.contains(#[trigger] after[i]) by {
        assert(after[i] == before[i + d]);
    }
}

impl TopicStore {
    pub closed spec fn log(&self) -> SegmentLog {
        self.log
    }

    /// The consumers by name.
    pub closed spec fn consumers(&self) -> Map<Seq<u8>, Standing> {
        self.consumers@
    }

    pub closed spec fn offsets(&self) -> KeyDir {
        self.offsets
    }

    pub closed spec fn max_bytes(&self) -> u64 {
        self.max_segment_bytes
    }

    pub closed spec fn wf(&self) -> bool {
        &&& self.log.wf()
        &&& self.consumers.wf()
        &&& self.offsets.wf()
        &&& offsets_match(self.offsets@, self.consumers@)
    }

    /// The retained records.
    pub open spec fn records(&self) -> Seq<Seq<u8>> {
        self.log().records()
    }

    /// The bounds of the retained segments.
    pub open spec fn bounds(&self) -> Seq<(u64, u64)> {
        segment::bounds(self.log().kept())
    }

    pub open spec fn stats_view(&self) -> TopicStats {
        TopicStats {
            earliest_offset: self.log().earliest(),
            next_offset: self.log().next(),
            records: self.records().len() as u64,
            retained_bytes: segment::total(self.log().kept()) as u64,
        }
    }

    /// What a topic promises to its users.
    pub proof fn lemma_wf(&self)
        requires
            self.wf(),
        ensures
            self.log().wf(),
            self.offsets().wf(),
            offsets_match(self.offsets()@, self.consumers()),
            self.records().len() == self.log().next() - self.log().earliest(),
            self.stats_view().records == self.records().len(),
            self.stats_view().retained_bytes == segment::total(self.log().kept()),
    {
        self.log.lemma_wf();
    }

    /// A topic without records and consumers.
    pub fn create(max_segment_bytes: u64, stride: u64, config: KeyDirConfig) -> (r: Result<Self, StorageError>)
        ensures
            match r {
                Ok(t) => {
                    &&& config.initial_capacity <= log::MAX_LOG
                    &&& t.wf()
                    &&& t.max_bytes() == max_segment_bytes
                    &&& t.offsets().config_view() == config
                    &&& t.offsets().recs() == Seq::<log::Rec>::empty()
                    &&& t.records() == Seq::<Seq<u8>>::empty()
                    &&& t.bounds() == seq![(0u64, 0u64)]
                    &&& t.log().kept().len() == 1
                    &&& t.log().kept()[0].recs().len() == 0
                    &&& t.consumers() == Map::<Seq<u8>, Standing>::empty()
                    &&& t.stats_view() == (TopicStats {
                        earliest_offset: 0,
                        next_offset: 0,
                        records: 0,
                        retained_bytes: segment::HEADER_SIZE as u64,
                    })
                },
                Err(e) => config.initial_capacity > log::MAX_LOG && e == StorageError::StorageFull,
            },
    {
        match KeyDir::create(config) {
            Ok(offsets) => Ok(
                TopicStore { log: SegmentLog::new(stride), consumers: Registry::new(), offsets, max_segment_bytes },
            ),
            Err(e) => Err(e),
        }
    }

    /// Reads a topic from the bytes of its segments, in any order, each with the offset at
    /// which it starts, and from the stored offsets.
    pub fn open(
        files: Vec<(u64, Vec<u8>)>,
        offsets: Vec<u8>,
        max_segment_bytes: u64,
        stride: u64,
        config: KeyDirConfig,
    ) -> (r: Result<Self, StorageError>)
        requires
            files@.len() > 0,
        ensures
            match r {
                Ok(t) => {
                    &&& t.wf()
                    &&& t.max_bytes() == max_segment_bytes
                    &&& t.offsets().config_view() == config
                    &&& offsets@.len() + 4 <= log::MAX_LOG
                    &&& config.initial_capacity <= log::MAX_LOG
                    &&& log::valid_image(offsets@, keydir::MAGIC)
                    &&& t.offsets().recs() == log::image_recs(offsets@)
                    &&& standings_from(log::kv_of(log::image_recs(offsets@)), t.consumers())
                    &&& exists|sorted: Seq<(u64, Vec<u8>)>|
                        vecs::by_number(sorted) && sorted.to_multiset() == files@.to_multiset()
                            && segment::files_error(sorted) is None && #[trigger] segment::read_from(
                            t.log().kept(),
                            sorted,
                        )
                },
                Err(e) => {
                    ||| e == StorageError::StorageFull && (offsets@.len() + 4 > log::MAX_LOG || config.initial_capacity
                        > log::MAX_LOG)
                    ||| e == StorageError::InvalidData && !log::valid_image(offsets@, keydir::MAGIC)
                    ||| e == StorageError::InvalidData && log::valid_image(offsets@, keydir::MAGIC) && !entries_ok(
                        log::kv_of(log::image_recs(offsets@)),
                    )
                    ||| exists|sorted: Seq<(u64, Vec<u8>)>|
                        vecs::by_number(sorted) && sorted.to_multiset() == files@.to_multiset()
                            && #[trigger] segment::files_error(sorted) == Some(e)
                },
            },
    {
        let ghost img = offsets@;
        let dir: KeyDir = match KeyDir::open(offsets, config) {
            Ok(d) => d,
            Err(e) => {
                return Err(e);
            },
        };
        let sorted: Vec<(u64, Vec<u8>)> = vecs::sort_by_number(files);
        let ghost arranged = sorted@;
        assert(vecs::by_number(arranged) && arranged.to_multiset() == files@.to_multiset());
        let log: SegmentLog = match SegmentLog::open(sorted, stride) {
            Ok(l) => l,
            Err(e) => {
                assert(segment::files_error(arranged) == Some(e));
                return Err(e);
            },
        };
        let consumers: Registry = match Self::load_consumers(&dir) {
            Ok(c) => c,
            Err(e) => {
                return Err(e);
            },
        };
        let r: TopicStore = TopicStore { log, consumers, offsets: dir, max_segment_bytes };
        assert(segment::read_from(r.log().kept(), arranged));
        Ok(r)
    }

    /// Registers the consumers whose offsets are stored.
    fn load_consumers(dir: &KeyDir) -> (r: Result<Registry, StorageError>)
        requires
            dir.wf(),
        ensures
            match r {
                Ok(c) => c.wf() && standings_from(dir@, c@),
                Err(e) => e == StorageError::InvalidData && !entries_ok(dir@),
            },
    {
        let entries: Vec<(Vec<u8>, Vec<u8>)> = dir.entries();
        let mut consumers: Registry = Registry::new();
        let mut i: usize = 0;
        let ghost none = entries@.take(0);
        proof {
            assert(maps::map_of(entries@) == dir@);
            maps::lemma_map_of(entries@);
        }
        while i < entries.len()
            invariant
                0 <= i <= entries@.len(),
                consumers.wf(),
                maps::lists_entries(dir@, entries@),
                forall|j: int|
                    0 <= j < entries@.len() ==> dir@.contains_key((#[trigger] entries@[j]).0@) && dir@[entries@[j].0@]
                        == entries@[j].1@,
                forall|n: Seq<u8>| #[trigger]
                    consumers@.contains_key(n) ==> n.len() <= MAX_NAME && dir@.contains_key(serdes::bytes_code(n))
                        && dir@[serdes::bytes_code(n)] == le::le8(consumers@[n].committed) && !consumers@[n].active
                        && consumers@[n].volatile == consumers@[n].committed,
                forall|j: int| 0 <= j < i ==> named((#[trigger] entries@[j]).0@, consumers@),
            decreases entries@.len() - i,
        {
            let ghost k = entries@[i as int].0@;
            let ghost v = entries@[i as int].1@;
            let key: &Vec<u8> = &entries[i].0;
            let value: &Vec<u8> = &entries[i].1;
            assert(dir@.contains_key(k) && dir@[k] == v);
            if key.len() < 8 || value.len() != 8 || key.len() - 8 > MAX_NAME {
                assert(!entry_ok(k, v));
                return Err(StorageError::InvalidData);
            }
            let (name, committed) = match (serdes::read_bytes(key), serdes::decode_u64(value)) {
                (Some(n), Some(c)) => (n, c),
                _ => {
                    proof {
                        if entry_ok(k, v) {
                            serdes::lemma_bytes_code(k.skip(8));
                        }
                    }
                    return Err(StorageError::InvalidData);
                },
            };
            if name.len() != key.len() - 8 {
                proof {
                    if entry_ok(k, v) {
                        serdes::lemma_bytes_code(k.skip(8));
                    }
                }
                return Err(StorageError::InvalidData);
            }
            let ghost before = consumers@;
            let standing: Standing = Standing { committed, volatile: committed, active: false };
            consumers.set(&name, standing);
            proof {
                le::lemma_le8_inverse(k, 0);
                le::lemma_le8_inverse(v, 0);
                assert(k.subrange(0, 8) + name@ =~= k);
                assert(v.subrange(0, 8) =~= v);
                assert(k == serdes::bytes_code(name@));
                assert forall|j: int| 0 <= j < i + 1 implies named((#[trigger] entries@[j]).0@, consumers@) by {
                    if j < i {
                        assert(named(entries@[j].0@, before));
                        let n = choose|n: Seq<u8>| #[trigger] before.contains_key(n) && entries@[j].0@
                            == serdes::bytes_code(n);
                        assert(consumers@.contains_key(n));
                    } else {
                        assert(consumers@.contains_key(name@));
                    }
                }
            }
            i = i + 1;
        }
        proof {
            assert forall|k: Seq<u8>| #[trigger] dir@.contains_key(k) implies named(k, consumers@) by {
                let j = choose|j: int| 0 <= j < entries@.len() && (#[trigger] entries@[j]).0@ == k;
                assert(named(entries@[j].0@, consumers@));
            }
        }
        Ok(consumers)
    }

    /// Whether a record of `n` bytes can be appended.
    pub open spec fn has_room(&self, n: int) -> bool {
        self.log().has_room(n)
    }

    /// Appends a record and gives its offset.
    pub fn append(&mut self, payload: &[u8]) -> (r: Result<u64, StorageError>)
        requires
            old(self).wf(),
            payload@.len() <= u32::MAX,
        ensures
            final(self).wf(),
            final(self).consumers() == old(self).consumers(),
            final(self).offsets() == old(self).offsets(),
            final(self).max_bytes() == old(self).max_bytes(),
            segment::grew(old(self).log().held(), final(self).log().held(), old(self).log().next()),
            match r {
                Ok(o) => {
                    let full = old(self).log().full(payload@.len() as int, old(self).max_bytes());
                    let d = final(self).log().earliest() - old(self).log().earliest();
                    &&& old(self).has_room(payload@.len() as int)
                    &&& o == old(self).log().next()
                    &&& final(self).log().next() == o + 1
                    &&& 0 <= d
                    &&& final(self).records() == old(self).records().skip(d).push(payload@)
                    &&& final(self).bounds() == appended_bounds(
                        old(self).bounds(),
                        full,
                        o,
                        old(self).consumers(),
                    )
                    &&& d > 0 ==> full && forall|n: Seq<u8>| #[trigger]
                        old(self).consumers().contains_key(n) ==> final(self).log().earliest()
                            <= old(self).consumers()[n].committed
                },
                Err(e) => e == StorageError::StorageFull && !old(self).has_room(payload@.len() as int)
                    && *final(self) == *old(self),
            },
            // Room is refused only at the ends of what can be counted.
            r is Err ==> segment::total(old(self).log().kept()) + payload@.len() + 8 > usize::MAX / 4
                || old(self).log().next() == u64::MAX,
            // A record goes behind the others of the last segment where they take no more than the limit
            // together, or where it is the first there. Otherwise it starts a segment of its own.
            r is Ok && (old(self).log().kept().last().recs().len() == 0 || segment::segment_bytes(
                old(self).log().kept().last().recs().push(payload@),
            ).len() <= old(self).max_bytes()) ==> {
                &&& final(self).log().kept().len() == old(self).log().kept().len()
                &&& final(self).log().kept().drop_last() == old(self).log().kept().drop_last()
                &&& final(self).log().kept().last().base() == old(self).log().kept().last().base()
                &&& final(self).log().kept().last().recs() == old(self).log().kept().last().recs().push(payload@)
            },
            r is Ok && old(self).log().kept().last().recs().len() > 0 && segment::segment_bytes(
                old(self).log().kept().last().recs().push(payload@),
            ).len() > old(self).max_bytes() ==> {
                &&& final(self).log().kept().last().base() == old(self).log().next()
                &&& final(self).log().kept().last().recs() == seq![payload@]
            },
            // So no segment of more than one record passes the limit, if none did before.
            r is Ok && final(self).log().kept().last().recs().len() > 1 ==> segment::segment_bytes(
                final(self).log().kept().last().recs(),
            ).len() <= old(self).max_bytes(),
            r is Ok ==> forall|i: int|
                0 <= i < final(self).log().kept().len() - 1 ==> old(self).log().kept().contains(
                    #[trigger] final(self).log().kept()[i],
                ),
            r is Ok && (forall|i: int|
                0 <= i < old(self).log().kept().len() && (#[trigger] old(self).log().kept()[i]).recs().len() > 1
                    ==> segment::segment_bytes(old(self).log().kept()[i].recs()).len() <= old(self).max_bytes())
                        ==> forall|i: int|
                0 <= i < final(self).log().kept().len() && (#[trigger] final(self).log().kept()[i]).recs().len() > 1
                    ==> segment::segment_bytes(final(self).log().kept()[i].recs()).len() <= old(self).max_bytes(),
            // A segment that is started drops those before it that no consumer needs any more.
            r is Ok && final(self).log().kept().last().base() == old(self).log().next()
                && final(self).log().kept().len() > 1 && !old(self).consumers().is_empty()
                && old(self).log().kept().last().recs().len() > 0 ==> exists|n: Seq<u8>| #[trigger]
                old(self).consumers().contains_key(n)
                    && old(self).consumers()[n].committed < final(self).log().kept()[0].end(),
    {
        proof {
            self.log.lemma_wf();
            lemma_one_more(self.log.kept().last().recs(), payload@);
        }
        let r: Result<u64, StorageError> = self.extend(payload);
        proof {
            if r is Ok {
                let before = old(self).log.kept();
                let after = self.log.kept();
                let full = old(self).log.full(payload@.len() as int, self.max_segment_bytes);
                let d = before.len() + if full {
                    1int
                } else {
                    0int
                } - after.len();
                lemma_limit(before, after, d, payload@, self.max_segment_bytes);
                if !full {
                    assert(after.drop_last() =~= before.drop_last());
                    before.last().lemma_wf();
                } else {
                    reveal(waits_for);
                }
            }
        }
        r
    }

    #[verifier::rlimit(50)]
    fn extend(&mut self, payload: &[u8]) -> (r: Result<u64, StorageError>)
        requires
            old(self).wf(),
            payload@.len() <= u32::MAX,
        ensures
            final(self).wf(),
            final(self).consumers() == old(self).consumers(),
            final(self).offsets() == old(self).offsets(),
            final(self).max_bytes() == old(self).max_bytes(),
            segment::grew(old(self).log().held(), final(self).log().held(), old(self).log().next()),
            match r {
                Ok(o) => {
                    let full = old(self).log().full(payload@.len() as int, old(self).max_bytes());
                    let d = final(self).log().earliest() - old(self).log().earliest();
                    &&& old(self).has_room(payload@.len() as int)
                    &&& o == old(self).log().next()
                    &&& final(self).log().next() == o + 1
                    &&& 0 <= d
                    &&& final(self).records() == old(self).records().skip(d).push(payload@)
                    &&& final(self).bounds() == appended_bounds(
                        old(self).bounds(),
                        full,
                        o,
                        old(self).consumers(),
                    )
                    &&& d > 0 ==> full && forall|n: Seq<u8>| #[trigger]
                        old(self).consumers().contains_key(n) ==> final(self).log().earliest()
                            <= old(self).consumers()[n].committed
                },
                Err(e) => e == StorageError::StorageFull && !old(self).has_room(payload@.len() as int)
                    && *final(self) == *old(self),
            },
            r is Ok ==> {
                let before = old(self).log().kept();
                let after = final(self).log().kept();
                let full = old(self).log().full(payload@.len() as int, old(self).max_bytes());
                let d = before.len() + if full {
                    1int
                } else {
                    0int
                } - after.len();
                &&& after.len() > 0
                &&& if full {
                    0 <= d && after.last().recs() == seq![payload@] && after.last().base() == old(self).log().next()
                } else {
                    &&& d == 0
                    &&& after.last().recs() == before.last().recs().push(payload@)
                    &&& after.last().base() == before.last().base()
                }
                &&& forall|i: int| 0 <= i < after.len() - 1 ==> #[trigger] after[i] == before[i + d]
            },
            r is Ok && old(self).log().full(payload@.len() as int, old(self).max_bytes()) ==> waits_for(
                final(self).log().kept(),
                old(self).consumers(),
            ),
    {
        let ghost log0 = self.log;
        proof {
            self.log.lemma_wf();
            segment::lemma_grew_same(self.log.held(), self.log.next());
        }
        if !self.log.room(payload.len()) {
            return Err(StorageError::StorageFull);
        }
        if self.log.is_full(payload.len(), self.max_segment_bytes) {
            self.start_segment();
        } else {
            assert(log0.records().skip(0) =~= log0.records());
        }
        let ghost log2 = self.log;
        proof {
            log2.lemma_wf();
        }
        let o: u64 = self.log.push(payload);
        proof {
            segment::lemma_grew_trans(log0.held(), log2.held(), self.log.held(), log0.next(), log2.next());
            let k2 = log2.kept();
            let k = self.log.kept();
            assert forall|i: int| 0 <= i < k.len() - 1 implies #[trigger] k[i] == k2[i] by {
                assert(k.drop_last()[i] == k[i]);
                assert(k2.drop_last()[i] == k2[i]);
            }
            if log0.full(payload@.len() as int, self.max_segment_bytes) {
                assert(k.last().recs() =~= seq![payload@]);
                assert(waits_for(k, self.consumers@)) by {
                    reveal(waits_for);
                    if k.len() > 1 {
                        assert(k[0] == k2[0]);
                    }
                }
            }
        }
        Ok(o)
    }

    /// Starts a new segment, and drops those before it that no consumer needs any more.
    #[verifier::rlimit(30)]
    fn start_segment(&mut self)
        requires
            old(self).wf(),
            segment::total(old(self).log().kept()) + segment::HEADER_SIZE <= segment::MAX_BYTES,
            old(self).log().kept().last().recs().len() > 0,
        ensures
            final(self).wf(),
            final(self).consumers() == old(self).consumers(),
            final(self).offsets() == old(self).offsets(),
            final(self).max_bytes() == old(self).max_bytes(),
            segment::grew(old(self).log().held(), final(self).log().held(), old(self).log().next()),
            final(self).log().next() == old(self).log().next(),
            old(self).log().earliest() <= final(self).log().earliest(),
            final(self).records() == old(self).records().skip(
                final(self).log().earliest() - old(self).log().earliest(),
            ),
            final(self).log().earliest() > old(self).log().earliest() ==> forall|n: Seq<u8>| #[trigger]
                old(self).consumers().contains_key(n) ==> final(self).log().earliest()
                    <= old(self).consumers()[n].committed,
            ({
                let a = old(self).bounds().push((old(self).log().next(), old(self).log().next()));
                final(self).bounds() == a.skip(done_with(a, old(self).consumers()))
            }),
            segment::total(final(self).log().kept()) <= segment::total(old(self).log().kept()) + segment::HEADER_SIZE,
            final(self).log().kept().len() <= old(self).log().kept().len() + 1,
            final(self).log().kept().last().recs().len() == 0,
            final(self).log().kept().last().base() == old(self).log().next(),
            forall|i: int|
                0 <= i < final(self).log().kept().len() - 1 ==> #[trigger] final(self).log().kept()[i]
                    == old(self).log().kept()[i + (old(self).log().kept().len() + 1 - final(self).log().kept().len())],
            waits_for(final(self).log().kept(), old(self).consumers()),
    {
        let ghost log0 = self.log;
        proof {
            log0.lemma_wf();
        }
        self.log.rotate();
        let ghost log1 = self.log;
        proof {
            log1.lemma_wf();
        }
        self.compact();
        assert(waits_for(self.log().kept(), old(self).consumers())) by {
            reveal(waits_for);
        }
        proof {
            segment::lemma_grew_trans(log0.held(), log1.held(), self.log.held(), log0.next(), log1.next());
            let k = self.log.kept();
            let k1 = log1.kept();
            let d = k1.len() - k.len();
            segment::lemma_skip_total(k1, d);
            assert(segment::bounds(k) =~= segment::bounds(k1).skip(d));
            assert(k.last() == k1.last());
            assert forall|i: int| 0 <= i < k.len() - 1 implies #[trigger] k[i] == log0.kept()[i + d] by {
                assert(k1.drop_last()[i + d] == k1[i + d]);
            }
        }
    }

    /// Drops the segments at the front that every consumer is done with, but for the last one.
    /// Without consumers nothing is dropped.
    pub fn compact(&mut self)
        requires
            old(self).wf(),
        ensures
            final(self).wf(),
            final(self).consumers() == old(self).consumers(),
            final(self).offsets() == old(self).offsets(),
            final(self).max_bytes() == old(self).max_bytes(),
            0 <= done_with(old(self).bounds(), old(self).consumers()) < old(self).log().kept().len(),
            final(self).log().kept() == old(self).log().kept().skip(
                done_with(old(self).bounds(), old(self).consumers()),
            ),
            final(self).log().next() == old(self).log().next(),
            old(self).log().earliest() <= final(self).log().earliest(),
            final(self).records() == old(self).records().skip(
                final(self).log().earliest() - old(self).log().earliest(),
            ),
            final(self).log().earliest() > old(self).log().earliest() ==> forall|n: Seq<u8>| #[trigger]
                old(self).consumers().contains_key(n) ==> final(self).log().earliest()
                    <= old(self).consumers()[n].committed,
            segment::grew(old(self).log().held(), final(self).log().held(), old(self).log().next()),
            // All that no consumer needs has gone, but for the last segment.
            final(self).log().kept().len() > 1 && !old(self).consumers().is_empty() ==> exists|n: Seq<u8>| #[trigger]
                old(self).consumers().contains_key(n) && old(self).consumers()[n].committed
                    < final(self).log().kept()[0].end(),
            old(self).consumers().is_empty() ==> final(self).log().kept() == old(self).log().kept(),
            0 < final(self).log().kept().len() <= old(self).log().kept().len(),
            final(self).log().kept() == old(self).log().kept().skip(
                old(self).log().kept().len() - final(self).log().kept().len(),
            ),
    {
        let ghost m = self.consumers@;
        proof {
            self.log.lemma_wf();
            segment::lemma_grew_same(self.log.held(), self.log.next());
        }
        match self.consumers.least_committed() {
            None => {
                assert(self.log.kept().skip(0) =~= self.log.kept());
                assert(self.log.records().skip(0) =~= self.log.records());
            },
            Some(c) => {
                proof {
                    assert(is_least(m, c));
                    let d = choose|d: u64| is_least(m, d);
                    assert(is_least(m, d));
                    let k = choose|k: Seq<u8>| #[trigger] m.contains_key(k) && m[k].committed == c;
                    let l = choose|l: Seq<u8>| #[trigger] m.contains_key(l) && m[l].committed == d;
                    assert(c == d);
                    assert(m.contains_key(k));
                    assert(!(m =~= Map::<Seq<u8>, Standing>::empty()));
                    segment::lemma_droppable(segment::bounds(self.log.kept()), c);
                }
                self.log.compact(c);
            },
        }
    }

    /// Whether the offset of a consumer can be stored.
    pub open spec fn offset_room(&self, name: Seq<u8>) -> bool {
        self.offsets().has_room(24 + name.len() as int)
    }

    /// Whether the offset of a consumer can be stored twice.
    pub open spec fn two_offsets_room(&self, name: Seq<u8>) -> bool {
        self.offsets().has_room(48 + 2 * name.len() as int)
    }

    /// Stores where a consumer stands. The other consumers are left alone.
    pub fn store_offset(&mut self, name: &Vec<u8>, standing: Standing) -> (r: Result<(), StorageError>)
        requires
            old(self).wf(),
            name@.len() <= MAX_NAME,
        ensures
            final(self).wf(),
            final(self).log() == old(self).log(),
            final(self).max_bytes() == old(self).max_bytes(),
            final(self).offsets().config_view() == old(self).offsets().config_view(),
            match r {
                Ok(_) => {
                    &&& old(self).offset_room(name@)
                    &&& final(self).consumers() == old(self).consumers().insert(name@, standing)
                    &&& offset_stored(old(self).offsets(), final(self).offsets(), name@, standing.committed)
                    &&& old(self).two_offsets_room(name@) ==> final(self).offset_room(name@)
                },
                Err(e) => e == StorageError::StorageFull && !old(self).offset_room(name@) && *final(self)
                    == *old(self),
            },
    {
        let ghost m = self.offsets@;
        let ghost c = self.consumers@;
        let key: Vec<u8> = serdes::encode_bytes(name);
        let value: Vec<u8> = serdes::encode_u64(standing.committed);
        proof {
            serdes::lemma_bytes_code(name@);
            serdes::lemma_u64_code(standing.committed);
        }
        match self.offsets.put(&key, &value) {
            Ok(_) => {},
            Err(e) => {
                return Err(e);
            },
        }
        self.consumers.set(name, standing);
        proof {
            old(self).offsets.lemma_image();
            log::lemma_settled(
                old(self).offsets.config_view().compaction_ratio,
                old(self).offsets.recs(),
                log::Rec::Put(key@, value@),
            );
            let m2 = self.offsets@;
            let c2 = self.consumers@;
            assert forall|n: Seq<u8>| #[trigger] c2.contains_key(n) implies n.len() <= MAX_NAME && m2.contains_key(
                serdes::bytes_code(n),
            ) && m2[serdes::bytes_code(n)] == le::le8(c2[n].committed) by {
                if n != name@ {
                    assert(c.contains_key(n));
                    if serdes::bytes_code(n) == key@ {
                        serdes::lemma_bytes_code_injective(n, name@);
                    }
                }
            }
            assert forall|k: Seq<u8>| #[trigger] m2.contains_key(k) implies named(k, c2) by {
                if k == key@ {
                    assert(c2.contains_key(name@));
                } else {
                    assert(m.contains_key(k));
                    assert(named(k, c));
                    let n = choose|n: Seq<u8>| #[trigger] c.contains_key(n) && k == serdes::bytes_code(n);
                    assert(c2.contains_key(n));
                }
            }
        }
        Ok(())
    }

    /// Changes where a consumer stands without storing it.
    pub fn note(&mut self, name: &Vec<u8>, standing: Standing)
        requires
            old(self).wf(),
            old(self).consumers().contains_key(name@),
            old(self).consumers()[name@].committed == standing.committed,
        ensures
            final(self).wf(),
            final(self).log() == old(self).log(),
            final(self).offsets() == old(self).offsets(),
            final(self).max_bytes() == old(self).max_bytes(),
            final(self).consumers() == old(self).consumers().insert(name@, standing),
    {
        let ghost c = self.consumers@;
        self.consumers.set(name, standing);
        proof {
            let m = self.offsets@;
            let c2 = self.consumers@;
            assert forall|n: Seq<u8>| #[trigger] c2.contains_key(n) implies n.len() <= MAX_NAME && m.contains_key(
                serdes::bytes_code(n),
            ) && m[serdes::bytes_code(n)] == le::le8(c2[n].committed) by {
                assert(c.contains_key(n));
            }
            assert forall|k: Seq<u8>| #[trigger] m.contains_key(k) implies named(k, c2) by {
                assert(named(k, c));
                let n = choose|n: Seq<u8>| #[trigger] c.contains_key(n) && k == serdes::bytes_code(n);
                assert(c2.contains_key(n));
            }
        }
    }

    /// Forgets a consumer and its stored offset.
    pub fn forget(&mut self, name: &Vec<u8>) -> (r: Result<(), StorageError>)
        requires
            old(self).wf(),
            old(self).consumers().contains_key(name@),
        ensures
            final(self).wf(),
            final(self).log() == old(self).log(),
            final(self).max_bytes() == old(self).max_bytes(),
            final(self).offsets().config_view() == old(self).offsets().config_view(),
            match r {
                Ok(_) => {
                    &&& old(self).offsets().has_room(16 + name@.len() as int)
                    &&& final(self).consumers() == old(self).consumers().remove(name@)
                    &&& offset_buried(old(self).offsets(), final(self).offsets(), name@)
                },
                Err(e) => e == StorageError::StorageFull && !old(self).offsets().has_room(16 + name@.len() as int)
                    && *final(self) == *old(self),
            },
    {
        let ghost m = self.offsets@;
        let ghost c = self.consumers@;
        let key: Vec<u8> = serdes::encode_bytes(name);
        proof {
            serdes::lemma_bytes_code(name@);
            assert(c.contains_key(name@));
        }
        match self.offsets.delete(&key) {
            Ok(_) => {},
            Err(e) => {
                return Err(e);
            },
        }
        let _ = self.consumers.remove(name);
        proof {
            let m2 = self.offsets@;
            let c2 = self.consumers@;
            assert forall|n: Seq<u8>| #[trigger] c2.contains_key(n) implies n.len() <= MAX_NAME && m2.contains_key(
                serdes::bytes_code(n),
            ) && m2[serdes::bytes_code(n)] == le::le8(c2[n].committed) by {
                assert(c.contains_key(n));
                if serdes::bytes_code(n) == key@ {
                    serdes::lemma_bytes_code_injective(n, name@);
                }
            }
            assert forall|k: Seq<u8>| #[trigger] m2.contains_key(k) implies named(k, c2) by {
                assert(m.contains_key(k));
                assert(named(k, c));
                let n = choose|n: Seq<u8>| #[trigger] c.contains_key(n) && k == serdes::bytes_code(n);
                assert(c2.contains_key(n));
            }
        }
        Ok(())
    }

    /// Where a consumer stands, or `None` where the name is not known.
    pub fn standing(&self, name: &[u8]) -> (r: Option<Standing>)
        requires
            self.wf(),
        ensures
            r == if self.consumers().contains_key(name@) {
                Some(self.consumers()[name@])
            } else {
                None
            },
    {
        self.consumers.get(name)
    }

    pub fn stats(&self) -> (r: TopicStats)
        requires
            self.wf(),
        ensures
            r == self.stats_view(),
            r.earliest_offset == self.log().earliest(),
            r.next_offset == self.log().next(),
            r.records == self.records().len(),
            r.retained_bytes == segment::total(self.log().kept()),
    {
        proof {
            self.lemma_wf();
        }
        let earliest: u64 = self.log.earliest_offset();
        let next: u64 = self.log.next_offset();
        proof {
            self.log.lemma_wf();
        }
        TopicStats {
            earliest_offset: earliest,
            next_offset: next,
            records: next - earliest,
            retained_bytes: self.log.retained_bytes(),
        }
    }

    /// The topic after reading: nothing has changed but which segments are held.
    pub open spec fn read_only(&self, o: &Self) -> bool {
        &&& self.wf()
        &&& self.max_bytes() == o.max_bytes()
        &&& self.offsets() == o.offsets()
        &&& self.consumers() == o.consumers()
        &&& self.log().same(o.log())
        &&& segment::grew(o.log().held(), self.log().held(), o.log().next())
    }

    /// The next record of a reader and its offset, or `None` where there is none.
    pub fn read(&mut self, reader: &mut TopicReader) -> (r: Option<(u64, Vec<u8>)>)
        requires
            old(self).wf(),
            old(reader).ok(&old(self).log()),
        ensures
            final(self).read_only(old(self)),
            final(reader).ok(&final(self).log()),
            match r {
                Some((o, v)) => old(reader).finds(&old(self).log()) == Some((o as int, v@)) && final(reader).offset()
                    == o + 1,
                None => old(reader).finds(&old(self).log()) is None && final(reader).offset()
                    == old(self).log().next(),
            },
            // The record at the reader's offset, where it is retained; and for a reader in no segment whose
            // record is gone, the first that is.
            old(reader).offset() >= old(self).log().earliest() ==> match r {
                Some((o, v)) => o == old(reader).offset() && o < old(self).log().next()
                    && v@ == old(self).records()[o - old(self).log().earliest()]
                    && final(reader).offset() == o + 1,
                None => old(reader).offset() >= old(self).log().next(),
            },
            old(reader).offset() < old(self).log().earliest() && old(reader).stands_in() is None ==> match r {
                Some((o, v)) => o == old(self).log().earliest() && o < old(self).log().next()
                    && v@ == old(self).records()[0] && final(reader).offset() == o + 1,
                None => old(self).log().earliest() == old(self).log().next(),
            },
    {
        reader.next(&mut self.log)
    }

    /// Sends a reader to a target. Gives whether there is a record.
    pub fn seek(&mut self, reader: &mut TopicReader, target: SeekTarget) -> (r: bool)
        requires
            old(self).wf(),
        ensures
            final(self).read_only(old(self)),
            final(reader).ok(&final(self).log()),
            final(reader).stands_in() is None,
            match target {
                SeekTarget::Offset(o) => final(reader).offset() == o && r == (o < old(self).log().next()),
                SeekTarget::Earliest => final(reader).offset() == old(self).log().earliest() && r == (old(
                    self,
                ).log().earliest() < old(self).log().next()),
                SeekTarget::Latest => final(reader).offset() == old(self).log().next() && !r,
            },
    {
        reader.seek(target, &mut self.log)
    }

    /// Sends a reader to the first retained record whose first `size` bytes meet the
    /// predicate, or behind the last record where there is none.
    pub fn seek_prefix<F: Fn(&[u8]) -> bool>(&mut self, reader: &mut TopicReader, size: usize, predicate: F) -> (r: Result<
        bool,
        StorageError,
    >)
        requires
            old(self).wf(),
            forall|b: &[u8]| #[trigger] call_requires(predicate, (b,)),
        ensures
            final(self).read_only(old(self)),
            match r {
                Ok(true) => {
                    &&& old(self).log().earliest() <= final(reader).offset() < old(self).log().next()
                    &&& final(reader).stands_in() is None
                    &&& final(reader).ok(&final(self).log())
                    &&& reader::passed_over(&old(self).log(), size as int, predicate, final(reader).offset() as int)
                    &&& reader::judged(&old(self).log(), size as int, predicate, final(reader).offset() as int, true)
                },
                Ok(false) => {
                    &&& final(reader).offset() == old(self).log().next()
                    &&& final(reader).stands_in() is None
                    &&& final(reader).ok(&final(self).log())
                    &&& reader::passed_over(&old(self).log(), size as int, predicate, old(self).log().next() as int)
                },
                Err(e) => {
                    &&& e == StorageError::UnexpectedEof
                    &&& *final(reader) == *old(reader)
                    &&& exists|o: int| #[trigger]
                        reader::cut_short(&old(self).log(), size as int, o) && reader::passed_over(
                            &old(self).log(),
                            size as int,
                            predicate,
                            o,
                        )
                },
            },
            // With their first bytes, the record that was found meets the predicate, and none of the retained
            // ones before it does.
            r is Ok ==> forall|i: int|
                0 <= i < final(reader).offset() - old(self).log().earliest()
                    ==> (#[trigger] old(self).log().records()[i]).len() >= size
                    && exists|b: &[u8]|
                    b@ == old(self).log().records()[i].take(size as int) && #[trigger] call_ensures(predicate, (b,), false),
            r == Ok::<bool, StorageError>(true) ==> {
                let found = old(self).log().records()[final(reader).offset() - old(self).log().earliest()];
                found.len() >= size && exists|b: &[u8]|
                    b@ == found.take(size as int) && #[trigger] call_ensures(predicate, (b,), true)
            },
    {
        reader.seek_prefix(size, predicate, &mut self.log)
    }

    /// Lets the segment go in which a reader stands.
    pub fn let_go(&mut self, reader: &mut TopicReader)
        requires
            old(self).wf(),
        ensures
            final(self).read_only(old(self)),
            old(self).log().let_out(&final(self).log(), old(reader).stands_in()),
            final(reader).offset() == old(reader).offset(),
            final(reader).stands_in() is None,
            final(reader).ok(&final(self).log()),
    {
        reader.let_go(&mut self.log);
    }

    /// Offset of the first retained record.
    pub fn earliest_offset(&self) -> (r: u64)
        requires
            self.wf(),
        ensures
            r == self.log().earliest(),
    {
        self.log.earliest_offset()
    }

    /// Offset of the next record to come.
    pub fn next_offset(&self) -> (r: u64)
        requires
            self.wf(),
        ensures
            r == self.log().next(),
    {
        self.log.next_offset()
    }

    /// The number of retained segments.
    pub fn segment_count(&self) -> (r: usize)
        requires
            self.wf(),
        ensures
            r == self.log().kept().len(),
    {
        self.log.count()
    }

    /// Where each segment starts that is held: those that are retained, and those before them in
    /// which a reader still stands.
    pub fn held_bases(&self) -> (r: Vec<u64>)
        requires
            self.wf(),
        ensures
            r@.len() == self.log().held().len(),
            forall|i: int| 0 <= i < r@.len() ==> #[trigger] r@[i] == self.log().held()[i].base(),
    {
        self.log.held_bases()
    }

    /// The retained segments: where each starts, and its bytes.
    pub fn segments(&self) -> (r: Vec<(u64, Vec<u8>)>)
        requires
            self.wf(),
        ensures
            segment::written_as(self.log().kept(), r@, Seq::empty()),
    {
        self.log.images()
    }

    /// The stored offsets, as bytes to keep.
    pub fn offsets_image(&self) -> (r: &Vec<u8>)
        ensures
            r@ == self.offsets().image_view(),
    {
        self.offsets.image()
    }
}

} // verus!
