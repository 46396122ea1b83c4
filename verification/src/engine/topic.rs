//! A topic whose consumers keep their place while no handle on them is open.

use crate::engine::keydir;
use crate::engine::log;
use crate::error::StorageError;
use crate::topic::reader;
use crate::topic::reader::SeekTarget;
use crate::topic::reader::TopicReader;
use crate::topic::registry::Standing;
use crate::topic::segment;
use crate::topic::segment::SegmentLog;
use crate::topic::store;
use crate::topic::store::TopicStats;
use crate::topic::store::TopicStore;
use crate::engine::keydir::KeyDirConfig;
use crate::utils::key::Key;
use crate::utils::vecs;
use vstd::prelude::*;

verus! {

/// The place of a record in a topic.
pub type TopicOffset = u64;

pub const DEFAULT_MAX_SEGMENT_BYTES: u64 = 67108864;

/// Sizes of a topic.
#[derive(Clone, Copy, Debug, PartialEq, Eq, Structural)]
pub struct TopicConfig {
    /// Bytes from which on a segment takes no further record.
    pub max_segment_bytes: u64,
    /// Settings of the store for the offsets of the consumers.
    pub offsets: KeyDirConfig,
}

impl Default for TopicConfig {
    fn default() -> (c: Self)
        ensures
            c.max_segment_bytes == DEFAULT_MAX_SEGMENT_BYTES,
            c.max_segment_bytes == 67108864,
            c.offsets == keydir::usual(),
    {
        TopicConfig { max_segment_bytes: DEFAULT_MAX_SEGMENT_BYTES, offsets: KeyDirConfig::default() }
    }
}

/// An append-only topic of byte strings.
pub struct Topic {
    config: TopicConfig,
    store: TopicStore,
}

impl Topic {
    pub closed spec fn wf(&self) -> bool {
        &&& self.store.wf()
        &&& self.store.max_bytes() == self.config.max_segment_bytes
        &&& self.store.offsets().config_view() == self.config.offsets
    }

    pub closed spec fn config_view(&self) -> TopicConfig {
        self.config
    }

    pub closed spec fn store(&self) -> TopicStore {
        self.store
    }

    /// The segments.
    pub open spec fn log(&self) -> SegmentLog {
        self.store().log()
    }

    /// The retained records.
    pub open spec fn records(&self) -> Seq<Seq<u8>> {
        self.store().records()
    }

    /// The consumers by name.
    pub open spec fn consumers(&self) -> Map<Seq<u8>, Standing> {
        self.store().consumers()
    }

    pub open spec fn stats_view(&self) -> TopicStats {
        self.store().stats_view()
    }

    /// What a topic promises to its users.
    pub proof fn lemma_wf(&self)
        requires
            self.wf(),
        ensures
            self.log().wf(),
            self.records().len() == self.log().next() - self.log().earliest(),
            self.stats_view().records == self.records().len(),
            self.stats_view().retained_bytes == segment::total(self.log().kept()),
    {
        self.store.lemma_wf();
    }

    /// The segments, the consumers and their offsets belong together.
    pub proof fn lemma_store(&self)
        requires
            self.wf(),
        ensures
            self.store().wf(),
    {
    }

    /// A topic without records and consumers.
    pub fn create(config: TopicConfig) -> (r: Result<Self, StorageError>)
        ensures
            match r {
                Ok(t) => {
                    &&& config.offsets.initial_capacity <= log::MAX_LOG
                    &&& t.wf()
                    &&& t.config_view() == config
                    &&& t.store().offsets().recs() == Seq::<log::Rec>::empty()
                    &&& t.records() == Seq::<Seq<u8>>::empty()
                    &&& t.log().kept().len() == 1
                    &&& t.log().kept()[0].recs().len() == 0
                    &&& t.consumers() == Map::<Seq<u8>, Standing>::empty()
                    &&& t.stats_view() == (TopicStats {
                        earliest_offset: 0,
                        next_offset: 0,
                        records: 0,
                        retained_bytes: segment::HEADER_SIZE as u64,
                    })
                },
                Err(e) => config.offsets.initial_capacity > log::MAX_LOG && e == StorageError::StorageFull,
            },
    {
        match TopicStore::create(config.max_segment_bytes, 0, config.offsets) {
            Ok(store) => Ok(Topic { config, store }),
            Err(e) => Err(e),
        }
    }

    /// What a topic is that was read from the bytes of its segments and of its offsets.
    pub open spec fn opened_from(
        files: Seq<(u64, Vec<u8>)>,
        offsets: Seq<u8>,
        config: TopicConfig,
        t: Topic,
    ) -> bool {
        &&& t.wf()
        &&& t.config_view() == config
        &&& offsets.len() + 4 <= log::MAX_LOG
        &&& config.offsets.initial_capacity <= log::MAX_LOG
        &&& log::valid_image(offsets, keydir::MAGIC)
        &&& t.store().offsets().recs() == log::image_recs(offsets)
        &&& store::standings_from(log::kv_of(log::image_recs(offsets)), t.consumers())
        &&& exists|sorted: Seq<(u64, Vec<u8>)>|
            vecs::by_number(sorted) && sorted.to_multiset() == files.to_multiset() && segment::files_error(
                sorted,
            ) is None && #[trigger] segment::read_from(t.log().kept(), sorted)
    }

    /// Why the bytes are refused.
    pub open spec fn open_error(
        files: Seq<(u64, Vec<u8>)>,
        offsets: Seq<u8>,
        config: TopicConfig,
        e: StorageError,
    ) -> bool {
        ||| e == StorageError::StorageFull && (offsets.len() + 4 > log::MAX_LOG || config.offsets.initial_capacity
            > log::MAX_LOG)
        ||| e == StorageError::InvalidData && !log::valid_image(offsets, keydir::MAGIC)
        ||| e == StorageError::InvalidData && log::valid_image(offsets, keydir::MAGIC) && !store::entries_ok(
            log::kv_of(log::image_recs(offsets)),
        )
        ||| exists|sorted: Seq<(u64, Vec<u8>)>|
            vecs::by_number(sorted) && sorted.to_multiset() == files.to_multiset() && #[trigger] segment::files_error(
                sorted,
            ) == Some(e)
    }

    /// Reads a topic from the bytes of its segments, in any order, each with the offset at
    /// which it starts, and from the stored offsets of its consumers. A record that is cut off
    /// at the end of the last segment is left out.
    pub fn open(files: Vec<(u64, Vec<u8>)>, offsets: Vec<u8>, config: TopicConfig) -> (r: Result<Self, StorageError>)
        requires
            files@.len() > 0,
        ensures
            match r {
                Ok(t) => Topic::opened_from(files@, offsets@, config, t),
                Err(e) => Topic::open_error(files@, offsets@, config, e),
            },
    {
        match TopicStore::open(
            files,
            offsets,
            config.max_segment_bytes,
            0,
            config.offsets,
        ) {
            Ok(store) => {
                let t: Topic = Topic { config, store };
                proof {
                    let sorted = choose|sorted: Seq<(u64, Vec<u8>)>|
                        vecs::by_number(sorted) && sorted.to_multiset() == files@.to_multiset()
                            && segment::files_error(sorted) is None && #[trigger] segment::read_from(
                            store.log().kept(),
                            sorted,
                        );
                    assert(segment::read_from(t.log().kept(), sorted));
                }
                Ok(t)
            },
            Err(e) => Err(e),
        }
    }

    /// Appends a record and gives its offset. Where the last segment has no room for it, a new
    /// one is started, and segments that every consumer is done with are dropped.
    pub fn append(&mut self, payload: &[u8]) -> (r: Result<u64, StorageError>)
        requires
            old(self).wf(),
            payload@.len() <= u32::MAX,
        ensures
            final(self).wf(),
            final(self).config_view() == old(self).config_view(),
            final(self).consumers() == old(self).consumers(),
            final(self).store().offsets() == old(self).store().offsets(),
            segment::grew(old(self).log().held(), final(self).log().held(), old(self).log().next()),
            match r {
                Ok(o) => {
                    let full = old(self).log().full(
                        payload@.len() as int,
                        old(self).config_view().max_segment_bytes,
                    );
                    let d = final(self).log().earliest() - old(self).log().earliest();
                    &&& old(self).store().has_room(payload@.len() as int)
                    &&& o == old(self).log().next()
                    &&& final(self).log().next() == o + 1
                    &&& 0 <= d
                    &&& final(self).records() == old(self).records().skip(d).push(payload@)
                    &&& final(self).store().bounds() == store::appended_bounds(
                        old(self).store().bounds(),
                        full,
                        o,
                        old(self).consumers(),
                    )
                    &&& d > 0 ==> full && forall|n: Seq<u8>| #[trigger]
                        old(self).consumers().contains_key(n) ==> final(self).log().earliest()
                            <= old(self).consumers()[n].committed
                },
                Err(e) => e == StorageError::StorageFull && !old(self).store().has_room(payload@.len() as int)
                    && *final(self) == *old(self),
            },
            // Room is refused only at the ends of what can be counted.
            r is Err ==> segment::total(old(self).log().kept()) + payload@.len() + 8 > usize::MAX / 4
                || old(self).log().next() == u64::MAX,
            // A record goes behind the others of the last segment where they take no more than the limit
            // together, or where it is the first there. Otherwise it starts a segment of its own.
            r is Ok && (old(self).log().kept().last().recs().len() == 0 || segment::segment_bytes(
                old(self).log().kept().last().recs().push(payload@),
            ).len() <= old(self).config_view().max_segment_bytes) ==> {
                &&& final(self).log().kept().len() == old(self).log().kept().len()
                &&& final(self).log().kept().drop_last() == old(self).log().kept().drop_last()
                &&& final(self).log().kept().last().base() == old(self).log().kept().last().base()
                &&& final(self).log().kept().last().recs() == old(self).log().kept().last().recs().push(payload@)
            },
            r is Ok && old(self).log().kept().last().recs().len() > 0 && segment::segment_bytes(
                old(self).log().kept().last().recs().push(payload@),
            ).len() > old(self).config_view().max_segment_bytes ==> {
                &&& final(self).log().kept().last().base() == old(self).log().next()
                &&& final(self).log().kept().last().recs() == seq![payload@]
            },
            // So no segment of more than one record passes the limit, if none did before.
            r is Ok && final(self).log().kept().last().recs().len() > 1 ==> segment::segment_bytes(
                final(self).log().kept().last().recs(),
            ).len() <= old(self).config_view().max_segment_bytes,
            r is Ok ==> forall|i: int|
                0 <= i < final(self).log().kept().len() - 1 ==> old(self).log().kept().contains(
                    #[trigger] final(self).log().kept()[i],
                ),
            r is Ok && (forall|i: int|
                0 <= i < old(self).log().kept().len() && (#[trigger] old(self).log().kept()[i]).recs().len() > 1
                    ==> segment::segment_bytes(old(self).log().kept()[i].recs()).len() <= old(self).config_view().max_segment_bytes) ==> forall|i: int|
                0 <= i < final(self).log().kept().len() && (#[trigger] final(self).log().kept()[i]).recs().len() > 1
                    ==> segment::segment_bytes(final(self).log().kept()[i].recs()).len() <= old(self).config_view().max_segment_bytes,
            // A segment that is started drops those before it that no consumer needs any more.
            r is Ok && final(self).log().kept().last().base() == old(self).log().next()
                && final(self).log().kept().len() > 1 && !old(self).consumers().is_empty()
                && old(self).log().kept().last().recs().len() > 0 ==> exists|n: Seq<u8>| #[trigger]
                old(self).consumers().contains_key(n)
                    && old(self).consumers()[n].committed < final(self).log().kept()[0].end(),
    {
        self.store.append(payload)
    }

    /// Drops the segments at the front that every consumer is done with, but for the last one.
    /// Without consumers nothing is dropped.
    pub fn compact(&mut self) -> (r: Result<(), StorageError>)
        requires
            old(self).wf(),
        ensures
            r is Ok,
            final(self).wf(),
            final(self).config_view() == old(self).config_view(),
            final(self).consumers() == old(self).consumers(),
            final(self).store().offsets() == old(self).store().offsets(),
            final(self).log().kept() == old(self).log().kept().skip(
                store::done_with(old(self).store().bounds(), old(self).consumers()),
            ),
            final(self).log().next() == old(self).log().next(),
            old(self).log().earliest() <= final(self).log().earliest(),
            final(self).records() == old(self).records().skip(
                final(self).log().earliest() - old(self).log().earliest(),
            ),
            final(self).log().earliest() > old(self).log().earliest() ==> forall|n: Seq<u8>| #[trigger]
                old(self).consumers().contains_key(n) ==> final(self).log().earliest()
                    <= old(self).consumers()[n].committed,
            segment::grew(old(self).log().held(), final(self).log().held(), old(self).log().next()),
            // All that no consumer needs has gone, but for the last segment.
            final(self).log().kept().len() > 1 && !old(self).consumers().is_empty() ==> exists|n: Seq<u8>| #[trigger]
                old(self).consumers().contains_key(n) && old(self).consumers()[n].committed
                    < final(self).log().kept()[0].end(),
            old(self).consumers().is_empty() ==> final(self).log().kept() == old(self).log().kept(),
            0 < final(self).log().kept().len() <= old(self).log().kept().len(),
            final(self).log().kept() == old(self).log().kept().skip(
                old(self).log().kept().len() - final(self).log().kept().len(),
            ),
    {
        self.store.compact();
        Ok(())
    }

    /// The topic after reading: nothing has changed but which segments are held.
    pub open spec fn read_only(&self, o: &Self) -> bool {
        &&& self.wf()
        &&& self.config_view() == o.config_view()
        &&& self.consumers() == o.consumers()
        &&& self.store().offsets() == o.store().offsets()
        &&& self.log().same(o.log())
        &&& segment::grew(o.log().held(), self.log().held(), o.log().next())
    }

    /// Opens a consumer. A name that is seen for the first time is registered behind the last
    /// record. A consumer can be open only once at a time; it reads on where it stopped.
    pub fn consumer(&mut self, name: &Vec<u8>) -> (r: Result<TopicConsumer, StorageError>)
        requires
            old(self).wf(),
            name@.len() <= store::MAX_NAME,
        ensures
            final(self).wf(),
            final(self).config_view() == old(self).config_view(),
            final(self).log() == old(self).log(),
            match r {
                Ok(c) => {
                    let known = old(self).consumers().contains_key(name@);
                    let next = old(self).log().next();
                    &&& known ==> !old(self).consumers()[name@].active
                    &&& !known ==> old(self).store().offset_room(name@)
                    &&& known ==> final(self).store().offsets() == old(self).store().offsets()
                    &&& !known ==> store::offset_stored(
                        old(self).store().offsets(),
                        final(self).store().offsets(),
                        name@,
                        old(self).log().next(),
                    )
                    &&& old(self).store().two_offsets_room(name@) ==> final(self).store().offset_room(name@)
                    &&& final(self).consumers() == old(self).consumers().insert(
                        name@,
                        if known {
                            (Standing { active: true, ..old(self).consumers()[name@] })
                        } else {
                            (Standing { committed: next, volatile: next, active: true })
                        },
                    )
                    &&& c.name() == name@
                    &&& c.reader().offset() == (if known {
                        old(self).consumers()[name@].volatile
                    } else {
                        next
                    })
                    &&& c.reader().stands_in() is None
                    &&& c.ok(final(self))
                },
                Err(e) => {
                    &&& *final(self) == *old(self)
                    &&& if old(self).consumers().contains_key(name@) {
                        e == StorageError::AlreadyExists && old(self).consumers()[name@].active
                    } else {
                        e == StorageError::StorageFull && !old(self).store().offset_room(name@)
                    }
                },
            },
    {
        let offset: u64 = match self.store.standing(name) {
            Some(s) => {
                if s.active {
                    return Err(StorageError::AlreadyExists);
                }
                self.store.note(name, Standing { committed: s.committed, volatile: s.volatile, active: true });
                s.volatile
            },
            None => {
                let next: u64 = self.store.next_offset();
                match self.store.store_offset(name, Standing { committed: next, volatile: next, active: true }) {
                    Ok(_) => {},
                    Err(e) => {
                        return Err(e);
                    },
                }
                next
            },
        };
        Ok(TopicConsumer { reader: TopicReader::at(offset), name: name.duplicate() })
    }

    pub fn stats(&self) -> (r: TopicStats)
        requires
            self.wf(),
        ensures
            r == self.stats_view(),
            r.earliest_offset == self.log().earliest(),
            r.next_offset == self.log().next(),
            r.records == self.records().len(),
            r.retained_bytes == segment::total(self.log().kept()),
    {
        proof {
            self.lemma_wf();
            self.lemma_store();
            self.store().lemma_wf();
        }
        self.store.stats()
    }

    pub fn config(&self) -> (r: TopicConfig)
        ensures
            r == self.config_view(),
    {
        self.config
    }

    /// The number of retained segments.
    pub fn segment_count(&self) -> (r: usize)
        requires
            self.wf(),
        ensures
            r == self.log().kept().len(),
    {
        self.store.segment_count()
    }

    /// Where each segment starts that is held: those that are retained, and those before them in
    /// which a reader still stands.
    pub fn held_bases(&self) -> (r: Vec<u64>)
        requires
            self.wf(),
        ensures
            r@.len() == self.log().held().len(),
            forall|i: int| 0 <= i < r@.len() ==> #[trigger] r@[i] == self.log().held()[i].base(),
    {
        self.store.held_bases()
    }

    /// The retained segments: where each starts, and its bytes.
    pub fn segments(&self) -> (r: Vec<(u64, Vec<u8>)>)
        requires
            self.wf(),
        ensures
            segment::written_as(self.log().kept(), r@, Seq::empty()),
    {
        self.store.segments()
    }

    /// The stored offsets, as bytes to keep.
    pub fn offsets_image(&self) -> (r: &Vec<u8>)
        ensures
            r@ == self.store().offsets().image_view(),
    {
        self.store.offsets_image()
    }
}

/// A handle on a consumer.
pub struct TopicConsumer {
    reader: TopicReader,
    name: Vec<u8>,
}

impl TopicConsumer {
    pub closed spec fn name(&self) -> Seq<u8> {
        self.name@
    }

    pub closed spec fn reader(&self) -> TopicReader {
        self.reader
    }

    /// Where the consumer stands.
    pub open spec fn standing(&self, topic: &Topic) -> Standing {
        topic.consumers()[self.name()]
    }

    /// The handle belongs to the topic.
    pub open spec fn ok(&self, topic: &Topic) -> bool {
        &&& topic.consumers().contains_key(self.name())
        &&& self.name().len() <= store::MAX_NAME
        &&& self.reader().ok(&topic.log())
        &&& self.reader().offset() == self.standing(topic).volatile
    }

    /// The topic with another place for this consumer.
    pub open spec fn moved(&self, before: &Topic, after: &Topic, volatile: u64) -> bool {
        &&& after.wf()
        &&& after.config_view() == before.config_view()
        &&& after.store().offsets() == before.store().offsets()
        &&& after.log().same(before.log())
        &&& segment::grew(before.log().held(), after.log().held(), before.log().next())
        &&& after.consumers() == before.consumers().insert(
            self.name(),
            (Standing { volatile, ..before.consumers()[self.name()] }),
        )
    }

    fn place(&self, topic: &mut Topic, volatile: u64)
        requires
            old(topic).wf(),
            old(topic).consumers().contains_key(self.name()),
        ensures
            final(topic).wf(),
            final(topic).config_view() == old(topic).config_view(),
            final(topic).log() == old(topic).log(),
            final(topic).store().offsets() == old(topic).store().offsets(),
            final(topic).consumers() == old(topic).consumers().insert(
                self.name(),
                (Standing { volatile, ..old(topic).consumers()[self.name()] }),
            ),
    {
        match topic.store.standing(&self.name) {
            Some(s) => {
                topic.store.note(&self.name, Standing { committed: s.committed, volatile, active: s.active });
            },
            None => {},
        }
    }

    /// The next record, or `None` where there is none.
    pub fn next(&mut self, topic: &mut Topic) -> (r: Option<Vec<u8>>)
        requires
            old(topic).wf(),
            old(self).ok(old(topic)),
            old(self).reader().stands(&old(topic).log()) || old(topic).log().earliest()
                <= old(self).reader().offset(),
        ensures
            final(self).ok(final(topic)),
            final(self).name() == old(self).name(),
            match r {
                Some(v) => {
                    let o = old(self).standing(old(topic)).volatile;
                    &&& o < old(topic).log().next()
                    &&& old(self).reader().finds(&old(topic).log()) == Some((o as int, v@))
                    &&& old(topic).log().earliest() <= o ==> v@ == old(topic).records()[o
                        - old(topic).log().earliest()]
                    &&& old(self).moved(old(topic), final(topic), (o + 1) as u64)
                    &&& final(self).reader().offset() == o + 1
                    &&& final(topic).consumers()[old(self).name()].volatile == o + 1
                    &&& final(topic).consumers()[old(self).name()].committed
                        == old(topic).consumers()[old(self).name()].committed
                },
                None => old(self).standing(old(topic)).volatile >= old(topic).log().next() && *final(topic) == *old(
                    topic,
                ) && *final(self) == *old(self),
            },
    {
        let ghost log0 = topic.log();
        let o: u64 = self.reader.offset_now();
        proof {
            topic.store.lemma_wf();
            if log0.earliest() <= o {
                reader::reads_its_offset(self.reader, log0);
            }
            self.reader.lemma_stands_before_end(&log0);
        }
        if o >= topic.store.next_offset() {
            return None;
        }
        match topic.store.read(&mut self.reader) {
            Some((_, v)) => {
                let to: u64 = self.reader.offset_now();
                self.place(topic, to);
                Some(v)
            },
            None => None,
        }
    }

    /// Stores where the consumer stands, from where it starts when the topic is opened again.
    pub fn commit(&self, topic: &mut Topic) -> (r: Result<(), StorageError>)
        requires
            old(topic).wf(),
            self.ok(old(topic)),
        ensures
            final(topic).wf(),
            final(topic).config_view() == old(topic).config_view(),
            final(topic).log() == old(topic).log(),
            self.ok(final(topic)),
            match r {
                Ok(_) => {
                    let s = self.standing(old(topic));
                    &&& final(topic).consumers()[self.name()].committed == self.reader().offset()
                    &&& final(topic).consumers()[self.name()].volatile == self.reader().offset()
                    &&& old(topic).store().offset_room(self.name())
                    &&& final(topic).consumers() == old(topic).consumers().insert(
                        self.name(),
                        (Standing { committed: s.volatile, ..s }),
                    )
                    &&& store::offset_stored(
                        old(topic).store().offsets(),
                        final(topic).store().offsets(),
                        self.name(),
                        s.volatile,
                    )
                },
                Err(e) => e == StorageError::StorageFull && !old(topic).store().offset_room(self.name())
                    && *final(topic) == *old(topic),
            },
    {
        match topic.store.standing(&self.name) {
            Some(s) => topic.store.store_offset(
                &self.name,
                Standing { committed: s.volatile, volatile: s.volatile, active: s.active },
            ),
            None => Ok(()),
        }
    }

    /// The offset of the record that is read next.
    pub fn offset(&self) -> (r: TopicOffset)
        ensures
            r == self.reader().offset(),
    {
        self.reader.offset_now()
    }

    /// Goes to an offset. It is kept only once it is committed.
    pub fn seek(&mut self, offset: TopicOffset, topic: &mut Topic)
        requires
            old(topic).wf(),
            old(self).ok(old(topic)),
        ensures
            final(self).ok(final(topic)),
            final(self).name() == old(self).name(),
            final(self).reader().stands_in() is None,
            old(self).moved(old(topic), final(topic), offset),
            final(self).reader().offset() == offset,
            final(topic).consumers()[old(self).name()].volatile == offset,
            final(topic).consumers()[old(self).name()].committed == old(topic).consumers()[old(self).name()].committed,
    {
        let _ = topic.store.seek(&mut self.reader, SeekTarget::Offset(offset));
        self.place(topic, offset);
    }

    /// Goes back to what was committed last.
    pub fn reset(&mut self, topic: &mut Topic) -> (r: Result<(), StorageError>)
        requires
            old(topic).wf(),
            old(self).ok(old(topic)),
        ensures
            r is Ok,
            final(self).ok(final(topic)),
            final(self).name() == old(self).name(),
            final(self).reader().stands_in() is None,
            old(self).moved(old(topic), final(topic), old(self).standing(old(topic)).committed),
            final(self).reader().offset() == old(topic).consumers()[old(self).name()].committed,
            final(topic).consumers()[old(self).name()].volatile == old(topic).consumers()[old(self).name()].committed,
            final(topic).consumers()[old(self).name()].committed == old(topic).consumers()[old(self).name()].committed,
    {
        let to: u64 = match topic.store.standing(&self.name) {
            Some(s) => s.committed,
            None => 0,
        };
        self.seek(to, topic);
        Ok(())
    }

    /// Forgets the consumer and what it has committed. Where that fails, the handle is closed.
    pub fn delete(self, topic: &mut Topic) -> (r: Result<(), StorageError>)
        requires
            old(topic).wf(),
            self.ok(old(topic)),
        ensures
            final(topic).wf(),
            final(topic).config_view() == old(topic).config_view(),
            final(topic).log().same(old(topic).log()),
            old(topic).log().let_out(&final(topic).log(), self.reader().stands_in()),
            segment::grew(old(topic).log().held(), final(topic).log().held(), old(topic).log().next()),
            match r {
                Ok(_) => {
                    &&& old(topic).store().offsets().has_room(16 + self.name().len() as int)
                    &&& final(topic).consumers() == old(topic).consumers().remove(self.name())
                    &&& store::offset_buried(
                        old(topic).store().offsets(),
                        final(topic).store().offsets(),
                        self.name(),
                    )
                },
                Err(e) => e == StorageError::StorageFull && !old(topic).store().offsets().has_room(
                    16 + self.name().len() as int,
                ) && final(topic).consumers() == old(topic).consumers().insert(
                    self.name(),
                    (Standing { active: false, ..old(topic).consumers()[self.name()] }),
                ),
            },
    {
        let mut me: TopicConsumer = self;
        topic.store.let_go(&mut me.reader);
        match topic.store.forget(&me.name) {
            Ok(_) => Ok(()),
            Err(e) => {
                me.set_inactive(topic);
                Err(e)
            },
        }
    }

    fn set_inactive(&self, topic: &mut Topic)
        requires
            old(topic).wf(),
            old(topic).consumers().contains_key(self.name()),
        ensures
            final(topic).wf(),
            final(topic).config_view() == old(topic).config_view(),
            final(topic).log() == old(topic).log(),
            final(topic).consumers() == old(topic).consumers().insert(
                self.name(),
                (Standing { active: false, ..old(topic).consumers()[self.name()] }),
            ),
    {
        match topic.store.standing(&self.name) {
            Some(s) => {
                topic.store.note(
                    &self.name,
                    Standing { committed: s.committed, volatile: s.volatile, active: false },
                );
            },
            None => {},
        }
    }

    /// Closes the handle. The consumer keeps its place until the topic is closed.
    pub fn close(self, topic: &mut Topic)
        requires
            old(topic).wf(),
            self.ok(old(topic)),
        ensures
            final(topic).wf(),
            final(topic).config_view() == old(topic).config_view(),
            final(topic).log().same(old(topic).log()),
            old(topic).log().let_out(&final(topic).log(), self.reader().stands_in()),
            segment::grew(old(topic).log().held(), final(topic).log().held(), old(topic).log().next()),
            final(topic).consumers() == old(topic).consumers().insert(
                self.name(),
                (Standing { active: false, ..old(topic).consumers()[self.name()] }),
            ),
    {
        let mut me: TopicConsumer = self;
        topic.store.let_go(&mut me.reader);
        me.set_inactive(topic);
    }
}

/// A topic that is opened again has its records and what its consumers committed. A record that
/// was cut off at its end while it was written is not seen.
pub proof fn reopening_keeps_topic(t: &Topic, files: Seq<(u64, Vec<u8>)>, cut: Seq<u8>, opened: Topic)
    requires
        t.wf(),
        segment::written_as(t.log().kept(), files, cut),
        segment::no_record(cut),
        Topic::opened_from(files, t.store().offsets().image_view(), t.config_view(), opened),
    ensures
        opened.records() == t.records(),
        opened.log().earliest() == t.log().earliest(),
        opened.log().next() == t.log().next(),
        opened.consumers().dom() == t.consumers().dom(),
        forall|n: Seq<u8>| #[trigger]
            t.consumers().contains_key(n) ==> opened.consumers()[n].committed == t.consumers()[n].committed,
{
    t.lemma_wf();
    opened.lemma_wf();
    let offsets = t.store().offsets().image_view();
    let sorted = choose|sorted: Seq<(u64, Vec<u8>)>|
        vecs::by_number(sorted) && sorted.to_multiset() == files.to_multiset() && segment::files_error(sorted) is None
            && #[trigger] segment::read_from(opened.log().kept(), sorted);
    segment::reopening_keeps_records(t.log(), opened.log(), cut, files, sorted);
    t.lemma_store();
    t.store().lemma_wf();
    t.store().offsets().lemma_image();
    store::reopening_keeps_commits(log::kv_of(log::image_recs(offsets)), t.consumers(), opened.consumers());
}

} // verus!
