//! A topic: one writer, many readers.

use crate::engine::keydir;
use crate::engine::log;
use crate::error::StorageError;
use crate::topic::consumer::TopicConsumer;
use crate::topic::reader;
use crate::topic::reader::SeekTarget;
use crate::topic::reader::TopicReader;
use crate::topic::registry::Standing;
use crate::topic::segment;
use crate::topic::segment::SegmentLog;
use crate::topic::store;
use crate::topic::store::TopicStats;
use crate::topic::store::TopicStore;
use crate::topic::types::TopicConfig;
use crate::utils::vecs;
use vstd::prelude::*;

verus! {

/// An append-only topic of byte strings.
pub struct Topic {
    config: TopicConfig,
    store: TopicStore,
}

impl Topic {
    pub closed spec fn wf(&self) -> bool {
        &&& self.store.wf()
        &&& self.store.max_bytes() == self.config.max_segment_bytes
        &&& self.store.offsets().config_view() == self.config.offsets
    }

    pub closed spec fn config_view(&self) -> TopicConfig {
        self.config
    }

    pub closed spec fn store(&self) -> TopicStore {
        self.store
    }

    /// The segments.
    pub open spec fn log(&self) -> SegmentLog {
        self.store().log()
    }

    /// The retained records.
    pub open spec fn records(&self) -> Seq<Seq<u8>> {
        self.store().records()
    }

    /// The consumers by name.
    pub open spec fn consumers(&self) -> Map<Seq<u8>, Standing> {
        self.store().consumers()
    }

    pub open spec fn stats_view(&self) -> TopicStats {
        self.store().stats_view()
    }

    /// What a topic promises to its users.
    pub proof fn lemma_wf(&self)
        requires
            self.wf(),
        ensures
            self.log().wf(),
            self.records().len() == self.log().next() - self.log().earliest(),
            self.stats_view().records == self.records().len(),
            self.stats_view().retained_bytes == segment::total(self.log().kept()),
    {
        self.store.lemma_wf();
    }

    /// The segments, the consumers and their offsets belong together.
    pub proof fn lemma_store(&self)
        requires
            self.wf(),
        ensures
            self.store().wf(),
    {
    }

    /// A topic without records and consumers.
    pub fn create(config: TopicConfig) -> (r: Result<Self, StorageError>)
        ensures
            match r {
                Ok(t) => {
                    &&& config.offsets.initial_capacity <= log::MAX_LOG
                    &&& t.wf()
                    &&& t.config_view() == config
                    &&& t.store().offsets().recs() == Seq::<log::Rec>::empty()
                    &&& t.records() == Seq::<Seq<u8>>::empty()
                    &&& t.log().kept().len() == 1
                    &&& t.log().kept()[0].recs().len() == 0
                    &&& t.consumers() == Map::<Seq<u8>, Standing>::empty()
                    &&& t.stats_view() == (TopicStats {
                        earliest_offset: 0,
                        next_offset: 0,
                        records: 0,
                        retained_bytes: segment::HEADER_SIZE as u64,
                    })
                },
                Err(e) => config.offsets.initial_capacity > log::MAX_LOG && e == StorageError::StorageFull,
            },
    {
        match TopicStore::create(config.max_segment_bytes, config.sparse_index_stride, config.offsets) {
            Ok(store) => Ok(Topic { config, store }),
            Err(e) => Err(e),
        }
    }

    /// What a topic is that was read from the bytes of its segments and of its offsets.
    pub open spec fn opened_from(
        files: Seq<(u64, Vec<u8>)>,
        offsets: Seq<u8>,
        config: TopicConfig,
        t: Topic,
    ) -> bool {
        &&& t.wf()
        &&& t.config_view() == config
        &&& offsets.len() + 4 <= log::MAX_LOG
        &&& config.offsets.initial_capacity <= log::MAX_LOG
        &&& log::valid_image(offsets, keydir::MAGIC)
        &&& t.store().offsets().recs() == log::image_recs(offsets)
        &&& store::standings_from(log::kv_of(log::image_recs(offsets)), t.consumers())
        &&& exists|sorted: Seq<(u64, Vec<u8>)>|
            vecs::by_number(sorted) && sorted.to_multiset() == files.to_multiset() && segment::files_error(
                sorted,
            ) is None && #[trigger] segment::read_from(t.log().kept(), sorted)
    }

    /// Why the bytes are refused.
    pub open spec fn open_error(
        files: Seq<(u64, Vec<u8>)>,
        offsets: Seq<u8>,
        config: TopicConfig,
        e: StorageError,
    ) -> bool {
        ||| e == StorageError::StorageFull && (offsets.len() + 4 > log::MAX_LOG || config.offsets.initial_capacity
            > log::MAX_LOG)
        ||| e == StorageError::InvalidData && !log::valid_image(offsets, keydir::MAGIC)
        ||| e == StorageError::InvalidData && log::valid_image(offsets, keydir::MAGIC) && !store::entries_ok(
            log::kv_of(log::image_recs(offsets)),
        )
        ||| exists|sorted: Seq<(u64, Vec<u8>)>|
            vecs::by_number(sorted) && sorted.to_multiset() == files.to_multiset() && #[trigger] segment::files_error(
                sorted,
            ) == Some(e)
    }

    /// Reads a topic from the bytes of its segments, in any order, each with the offset at
    /// which it starts, and from the stored offsets of its consumers. A record that is cut off
    /// at the end of the last segment is left out.
    pub fn open(files: Vec<(u64, Vec<u8>)>, offsets: Vec<u8>, config: TopicConfig) -> (r: Result<Self, StorageError>)
        requires
            files@.len() > 0,
        ensures
            match r {
                Ok(t) => Topic::opened_from(files@, offsets@, config, t),
                Err(e) => Topic::open_error(files@, offsets@, config, e),
            },
    {
        match TopicStore::open(
            files,
            offsets,
            config.max_segment_bytes,
            config.sparse_index_stride,
            config.offsets,
        ) {
            Ok(store) => {
                let t: Topic = Topic { config, store };
                proof {
                    let sorted = choose|sorted: Seq<(u64, Vec<u8>)>|
                        vecs::by_number(sorted) && sorted.to_multiset() == files@.to_multiset()
                            && segment::files_error(sorted) is None && #[trigger] segment::read_from(
                            store.log().kept(),
                            sorted,
                        );
                    assert(segment::read_from(t.log().kept(), sorted));
                }
                Ok(t)
            },
            Err(e) => Err(e),
        }
    }

    /// Appends a record and gives its offset. Where the last segment has no room for it, a new
    /// one is started, and segments that every consumer is done with are dropped.
    pub fn append(&mut self, payload: &[u8]) -> (r: Result<u64, StorageError>)
        requires
            old(self).wf(),
            payload@.len() <= u32::MAX,
        ensures
            final(self).wf(),
            final(self).config_view() == old(self).config_view(),
            final(self).consumers() == old(self).consumers(),
            final(self).store().offsets() == old(self).store().offsets(),
            segment::grew(old(self).log().held(), final(self).log().held(), old(self).log().next()),
            match r {
                Ok(o) => {
                    let full = old(self).log().full(
                        payload@.len() as int,
                        old(self).config_view().max_segment_bytes,
                    );
                    let d = final(self).log().earliest() - old(self).log().earliest();
                    &&& old(self).store().has_room(payload@.len() as int)
                    &&& o == old(self).log().next()
                    &&& final(self).log().next() == o + 1
                    &&& 0 <= d
                    &&& final(self).records() == old(self).records().skip(d).push(payload@)
                    &&& final(self).store().bounds() == store::appended_bounds(
                        old(self).store().bounds(),
                        full,
                        o,
                        old(self).consumers(),
                    )
                    &&& d > 0 ==> full && forall|n: Seq<u8>| #[trigger]
                        old(self).consumers().contains_key(n) ==> final(self).log().earliest()
                            <= old(self).consumers()[n].committed
                },
                Err(e) => e == StorageError::StorageFull && !old(self).store().has_room(payload@.len() as int)
                    && *final(self) == *old(self),
            },
            // Room is refused only at the ends of what can be counted.
            r is Err ==> segment::total(old(self).log().kept()) + payload@.len() + 8 > usize::MAX / 4
                || old(self).log().next() == u64::MAX,
            // A record goes behind the others of the last segment where they take no more than the limit
            // together, or where it is the first there. Otherwise it starts a segment of its own.
            r is Ok && (old(self).log().kept().last().recs().len() == 0 || segment::segment_bytes(
                old(self).log().kept().last().recs().push(payload@),
            ).len() <= old(self).config_view().max_segment_bytes) ==> {
                &&& final(self).log().kept().len() == old(self).log().kept().len()
                &&& final(self).log().kept().drop_last() == old(self).log().kept().drop_last()
                &&& final(self).log().kept().last().base() == old(self).log().kept().last().base()
                &&& final(self).log().kept().last().recs() == old(self).log().kept().last().recs().push(payload@)
            },
            r is Ok && old(self).log().kept().last().recs().len() > 0 && segment::segment_bytes(
                old(self).log().kept().last().recs().push(payload@),
            ).len() > old(self).config_view().max_segment_bytes ==> {
                &&& final(self).log().kept().last().base() == old(self).log().next()
                &&& final(self).log().kept().last().recs() == seq![payload@]
            },
            // So no segment of more than one record passes the limit, if none did before.
            r is Ok && final(self).log().kept().last().recs().len() > 1 ==> segment::segment_bytes(
                final(self).log().kept().last().recs(),
            ).len() <= old(self).config_view().max_segment_bytes,
            r is Ok ==> forall|i: int|
                0 <= i < final(self).log().kept().len() - 1 ==> old(self).log().kept().contains(
                    #[trigger] final(self).log().kept()[i],
                ),
            r is Ok && (forall|i: int|
                0 <= i < old(self).log().kept().len() && (#[trigger] old(self).log().kept()[i]).recs().len() > 1
                    ==> segment::segment_bytes(old(self).log().kept()[i].recs()).len() <= old(self).config_view().max_segment_bytes) ==> forall|i: int|
                0 <= i < final(self).log().kept().len() && (#[trigger] final(self).log().kept()[i]).recs().len() > 1
                    ==> segment::segment_bytes(final(self).log().kept()[i].recs()).len() <= old(self).config_view().max_segment_bytes,
            // A segment that is started drops those before it that no consumer needs any more.
            r is Ok && final(self).log().kept().last().base() == old(self).log().next()
                && final(self).log().kept().len() > 1 && !old(self).consumers().is_empty()
                && old(self).log().kept().last().recs().len() > 0 ==> exists|n: Seq<u8>| #[trigger]
                old(self).consumers().contains_key(n)
                    && old(self).consumers()[n].committed < final(self).log().kept()[0].end(),
    {
        self.store.append(payload)
    }

    /// Drops the segments at the front that every consumer is done with, but for the last one.
    /// Without consumers nothing is dropped.
    pub fn compact(&mut self) -> (r: Result<(), StorageError>)
        requires
            old(self).wf(),
        ensures
            r is Ok,
            final(self).wf(),
            final(self).config_view() == old(self).config_view(),
            final(self).consumers() == old(self).consumers(),
            final(self).store().offsets() == old(self).store().offsets(),
            final(self).log().kept() == old(self).log().kept().skip(
                store::done_with(old(self).store().bounds(), old(self).consumers()),
            ),
            final(self).log().next() == old(self).log().next(),
            old(self).log().earliest() <= final(self).log().earliest(),
            final(self).records() == old(self).records().skip(
                final(self).log().earliest() - old(self).log().earliest(),
            ),
            final(self).log().earliest() > old(self).log().earliest() ==> forall|n: Seq<u8>| #[trigger]
                old(self).consumers().contains_key(n) ==> final(self).log().earliest()
                    <= old(self).consumers()[n].committed,
            segment::grew(old(self).log().held(), final(self).log().held(), old(self).log().next()),
            // All that no consumer needs has gone, but for the last segment.
            final(self).log().kept().len() > 1 && !old(self).consumers().is_empty() ==> exists|n: Seq<u8>| #[trigger]
                old(self).consumers().contains_key(n) && old(self).consumers()[n].committed
                    < final(self).log().kept()[0].end(),
            old(self).consumers().is_empty() ==> final(self).log().kept() == old(self).log().kept(),
            0 < final(self).log().kept().len() <= old(self).log().kept().len(),
            final(self).log().kept() == old(self).log().kept().skip(
                old(self).log().kept().len() - final(self).log().kept().len(),
            ),
    {
        self.store.compact();
        Ok(())
    }

    /// A reader at the first retained record.
    pub fn reader(&self) -> (r: TopicReader)
        requires
            self.wf(),
        ensures
            r.offset() == self.log().earliest(),
            r.stands_in() is None,
            r.ok(&self.log()),
    {
        TopicReader::at(self.store.earliest_offset())
    }

    /// The topic after reading: nothing has changed but which segments are held.
    pub open spec fn read_only(&self, o: &Self) -> bool {
        &&& self.wf()
        &&& self.config_view() == o.config_view()
        &&& self.consumers() == o.consumers()
        &&& self.store().offsets() == o.store().offsets()
        &&& self.log().same(o.log())
        &&& segment::grew(o.log().held(), self.log().held(), o.log().next())
    }

    /// The next record of a reader and its offset, or `None` where there is none.
    pub fn read(&mut self, reader: &mut TopicReader) -> (r: Option<(u64, Vec<u8>)>)
        requires
            old(self).wf(),
            old(reader).ok(&old(self).log()),
        ensures
            final(self).read_only(old(self)),
            final(reader).ok(&final(self).log()),
            match r {
                Some((o, v)) => old(reader).finds(&old(self).log()) == Some((o as int, v@)) && final(reader).offset()
                    == o + 1,
                None => old(reader).finds(&old(self).log()) is None && final(reader).offset()
                    == old(self).log().next(),
            },
            // The record at the reader's offset, where it is retained; and for a reader in no segment whose
            // record is gone, the first that is.
            old(reader).offset() >= old(self).log().earliest() ==> match r {
                Some((o, v)) => o == old(reader).offset() && o < old(self).log().next()
                    && v@ == old(self).records()[o - old(self).log().earliest()]
                    && final(reader).offset() == o + 1,
                None => old(reader).offset() >= old(self).log().next(),
            },
            old(reader).offset() < old(self).log().earliest() && old(reader).stands_in() is None ==> match r {
                Some((o, v)) => o == old(self).log().earliest() && o < old(self).log().next()
                    && v@ == old(self).records()[0] && final(reader).offset() == o + 1,
                None => old(self).log().earliest() == old(self).log().next(),
            },
    {
        self.store.read(reader)
    }

    /// Sends a reader to a target. Gives whether there is a record.
    pub fn seek(&mut self, reader: &mut TopicReader, target: SeekTarget) -> (r: bool)
        requires
            old(self).wf(),
        ensures
            final(self).read_only(old(self)),
            final(reader).ok(&final(self).log()),
            final(reader).stands_in() is None,
            match target {
                SeekTarget::Offset(o) => final(reader).offset() == o && r == (o < old(self).log().next()),
                SeekTarget::Earliest => final(reader).offset() == old(self).log().earliest() && r == (old(
                    self,
                ).log().earliest() < old(self).log().next()),
                SeekTarget::Latest => final(reader).offset() == old(self).log().next() && !r,
            },
    {
        self.store.seek(reader, target)
    }

    /// Ends a reader, and lets the segment go in which it stood.
    pub fn close(&mut self, reader: TopicReader)
        requires
            old(self).wf(),
        ensures
            final(self).read_only(old(self)),
            old(self).log().let_out(&final(self).log(), reader.stands_in()),
    {
        let mut reader: TopicReader = reader;
        self.store.let_go(&mut reader);
    }

    /// Sends a reader to the first retained record whose first `size` bytes meet the
    /// predicate, or behind the last record where there is none. Gives whether there is one.
    /// Fails at a record that is shorter.
    pub fn seek_prefix<F: Fn(&[u8]) -> bool>(&mut self, reader: &mut TopicReader, size: usize, predicate: F) -> (r: Result<
        bool,
        StorageError,
    >)
        requires
            old(self).wf(),
            forall|b: &[u8]| #[trigger] call_requires(predicate, (b,)),
        ensures
            final(self).read_only(old(self)),
            match r {
                Ok(true) => {
                    &&& old(self).log().earliest() <= final(reader).offset() < old(self).log().next()
                    &&& final(reader).stands_in() is None
                    &&& final(reader).ok(&final(self).log())
                    &&& reader::passed_over(&old(self).log(), size as int, predicate, final(reader).offset() as int)
                    &&& reader::judged(&old(self).log(), size as int, predicate, final(reader).offset() as int, true)
                },
                Ok(false) => {
                    &&& final(reader).offset() == old(self).log().next()
                    &&& final(reader).stands_in() is None
                    &&& final(reader).ok(&final(self).log())
                    &&& reader::passed_over(&old(self).log(), size as int, predicate, old(self).log().next() as int)
                },
                Err(e) => {
                    &&& e == StorageError::UnexpectedEof
                    &&& *final(reader) == *old(reader)
                    &&& exists|o: int| #[trigger]
                        reader::cut_short(&old(self).log(), size as int, o) && reader::passed_over(
                            &old(self).log(),
                            size as int,
                            predicate,
                            o,
                        )
                },
            },
            // With their first bytes, the record that was found meets the predicate, and none of the retained
            // ones before it does.
            r is Ok ==> forall|i: int|
                0 <= i < final(reader).offset() - old(self).log().earliest()
                    ==> (#[trigger] old(self).log().records()[i]).len() >= size
                    && exists|b: &[u8]|
                    b@ == old(self).log().records()[i].take(size as int) && #[trigger] call_ensures(predicate, (b,), false),
            r == Ok::<bool, StorageError>(true) ==> {
                let found = old(self).log().records()[final(reader).offset() - old(self).log().earliest()];
                found.len() >= size && exists|b: &[u8]|
                    b@ == found.take(size as int) && #[trigger] call_ensures(predicate, (b,), true)
            },
    {
        self.store.seek_prefix(reader, size, predicate)
    }

    /// Where a consumer stands, or `None` where the name is not known.
    pub fn standing(&self, name: &[u8]) -> (r: Option<Standing>)
        requires
            self.wf(),
        ensures
            r == if self.consumers().contains_key(name@) {
                Some(self.consumers()[name@])
            } else {
                None
            },
    {
        self.store.standing(name)
    }

    /// Stores where a consumer stands. The other consumers are left alone.
    pub(crate) fn store_offset(&mut self, name: &Vec<u8>, standing: Standing) -> (r: Result<(), StorageError>)
        requires
            old(self).wf(),
            name@.len() <= store::MAX_NAME,
        ensures
            final(self).wf(),
            final(self).config_view() == old(self).config_view(),
            final(self).log() == old(self).log(),
            match r {
                Ok(_) => {
                    &&& old(self).store().offset_room(name@)
                    &&& final(self).consumers() == old(self).consumers().insert(name@, standing)
                    &&& store::offset_stored(
                        old(self).store().offsets(),
                        final(self).store().offsets(),
                        name@,
                        standing.committed,
                    )
                },
                Err(e) => e == StorageError::StorageFull && !old(self).store().offset_room(name@) && *final(self)
                    == *old(self),
            },
    {
        self.store.store_offset(name, standing)
    }

    /// Changes where a consumer stands without storing it.
    pub(crate) fn note(&mut self, name: &Vec<u8>, standing: Standing)
        requires
            old(self).wf(),
            old(self).consumers().contains_key(name@),
            old(self).consumers()[name@].committed == standing.committed,
        ensures
            final(self).wf(),
            final(self).config_view() == old(self).config_view(),
            final(self).log() == old(self).log(),
            final(self).store().offsets() == old(self).store().offsets(),
            final(self).consumers() == old(self).consumers().insert(name@, standing),
    {
        self.store.note(name, standing);
    }

    /// Forgets a consumer and its stored offset.
    pub(crate) fn forget(&mut self, name: &Vec<u8>) -> (r: Result<(), StorageError>)
        requires
            old(self).wf(),
            old(self).consumers().contains_key(name@),
        ensures
            final(self).wf(),
            final(self).config_view() == old(self).config_view(),
            final(self).log() == old(self).log(),
            match r {
                Ok(_) => {
                    &&& old(self).store().offsets().has_room(16 + name@.len() as int)
                    &&& final(self).consumers() == old(self).consumers().remove(name@)
                    &&& store::offset_buried(old(self).store().offsets(), final(self).store().offsets(), name@)
                },
                Err(e) => e == StorageError::StorageFull && !old(self).store().offsets().has_room(
                    16 + name@.len() as int,
                ) && *final(self) == *old(self),
            },
    {
        self.store.forget(name)
    }

    /// Lets the segment go in which a reader stands.
    pub fn let_go(&mut self, reader: &mut TopicReader)
        requires
            old(self).wf(),
        ensures
            final(self).read_only(old(self)),
            final(self).store().offsets() == old(self).store().offsets(),
            old(self).log().let_out(&final(self).log(), old(reader).stands_in()),
            final(reader).offset() == old(reader).offset(),
            final(reader).stands_in() is None,
            final(reader).ok(&final(self).log()),
    {
        self.store.let_go(reader);
    }

    /// Opens a consumer. A name that is seen for the first time is registered behind the last
    /// record. A consumer can be open only once at a time.
    pub fn consumer(&mut self, name: &Vec<u8>) -> (r: Result<TopicConsumer, StorageError>)
        requires
            old(self).wf(),
            name@.len() <= store::MAX_NAME,
        ensures
            final(self).wf(),
            final(self).config_view() == old(self).config_view(),
            final(self).log() == old(self).log(),
            match r {
                Ok(c) => {
                    let known = old(self).consumers().contains_key(name@);
                    let at = if known {
                        old(self).consumers()[name@].committed
                    } else {
                        old(self).log().next()
                    };
                    &&& known ==> !old(self).consumers()[name@].active
                    &&& !known ==> old(self).store().offset_room(name@)
                    &&& known ==> final(self).store().offsets() == old(self).store().offsets()
                    &&& !known ==> store::offset_stored(
                        old(self).store().offsets(),
                        final(self).store().offsets(),
                        name@,
                        old(self).log().next(),
                    )
                    &&& old(self).store().two_offsets_room(name@) ==> final(self).store().offset_room(name@)
                    &&& final(self).consumers() == old(self).consumers().insert(
                        name@,
                        (Standing { committed: at, volatile: at, active: true }),
                    )
                    &&& c.name() == name@
                    &&& c.committed() == at
                    &&& c.reader().offset() == at
                    &&& c.reader().stands_in() is None
                    &&& c.ok(final(self))
                },
                Err(e) => {
                    &&& *final(self) == *old(self)
                    &&& if old(self).consumers().contains_key(name@) {
                        e == StorageError::AlreadyExists && old(self).consumers()[name@].active
                    } else {
                        e == StorageError::StorageFull && !old(self).store().offset_room(name@)
                    }
                },
            },
    {
        match self.store.standing(name) {
            Some(s) => {
                if s.active {
                    return Err(StorageError::AlreadyExists);
                }
                self.store.note(name, Standing { committed: s.committed, volatile: s.committed, active: true });
                Ok(TopicConsumer::at(name, s.committed))
            },
            None => {
                let next: u64 = self.store.next_offset();
                match self.store.store_offset(name, Standing { committed: next, volatile: next, active: true }) {
                    Ok(_) => Ok(TopicConsumer::at(name, next)),
                    Err(e) => Err(e),
                }
            },
        }
    }

    pub fn stats(&self) -> (r: TopicStats)
        requires
            self.wf(),
        ensures
            r == self.stats_view(),
            r.earliest_offset == self.log().earliest(),
            r.next_offset == self.log().next(),
            r.records == self.records().len(),
            r.retained_bytes == segment::total(self.log().kept()),
    {
        proof {
            self.lemma_wf();
            self.lemma_store();
            self.store().lemma_wf();
        }
        self.store.stats()
    }

    pub fn config(&self) -> (r: TopicConfig)
        ensures
            r == self.config_view(),
    {
        self.config
    }

    /// The number of retained segments.
    pub fn segment_count(&self) -> (r: usize)
        requires
            self.wf(),
        ensures
            r == self.log().kept().len(),
    {
        self.store.segment_count()
    }

    /// Where each segment starts that is held: those that are retained, and those before them in
    /// which a reader still stands.
    pub fn held_bases(&self) -> (r: Vec<u64>)
        requires
            self.wf(),
        ensures
            r@.len() == self.log().held().len(),
            forall|i: int| 0 <= i < r@.len() ==> #[trigger] r@[i] == self.log().held()[i].base(),
    {
        self.store.held_bases()
    }

    /// The retained segments: where each starts, and its bytes.
    pub fn segments(&self) -> (r: Vec<(u64, Vec<u8>)>)
        requires
            self.wf(),
        ensures
            segment::written_as(self.log().kept(), r@, Seq::empty()),
    {
        self.store.segments()
    }

    /// The stored offsets, as bytes to keep.
    pub fn offsets_image(&self) -> (r: &Vec<u8>)
        ensures
            r@ == self.store().offsets().image_view(),
    {
        self.store.offsets_image()
    }
}

/// A topic that is opened again has its records and what its consumers committed. A record that
/// was cut off at its end while it was written is not seen.
pub proof fn reopening_keeps_topic(t: &Topic, files: Seq<(u64, Vec<u8>)>, cut: Seq<u8>, opened: Topic)
    requires
        t.wf(),
        segment::written_as(t.log().kept(), files, cut),
        segment::no_record(cut),
        Topic::opened_from(files, t.store().offsets().image_view(), t.config_view(), opened),
    ensures
        opened.records() == t.records(),
        opened.log().earliest() == t.log().earliest(),
        opened.log().next() == t.log().next(),
        opened.consumers().dom() == t.consumers().dom(),
        forall|n: Seq<u8>| #[trigger]
            t.consumers().contains_key(n) ==> opened.consumers()[n].committed == t.consumers()[n].committed,
{
    t.lemma_wf();
    opened.lemma_wf();
    let offsets = t.store().offsets().image_view();
    let sorted = choose|sorted: Seq<(u64, Vec<u8>)>|
        vecs::by_number(sorted) && sorted.to_multiset() == files.to_multiset() && segment::files_error(sorted) is None
            && #[trigger] segment::read_from(opened.log().kept(), sorted);
    segment::reopening_keeps_records(t.log(), opened.log(), cut, files, sorted);
    t.lemma_store();
    t.store().lemma_wf();
    t.store().offsets().lemma_image();
    store::reopening_keeps_commits(log::kv_of(log::image_recs(offsets)), t.consumers(), opened.consumers());
}

} // verus!
