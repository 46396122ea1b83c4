//! Named consumers of a topic.

use crate::error::StorageError;
use crate::topic::reader;
use crate::topic::reader::SeekTarget;
use crate::topic::reader::TopicReader;
use crate::topic::registry::Standing;
use crate::topic::segment;
use crate::topic::store;
use crate::topic::writer::Topic;
use crate::utils::key::Key;
use vstd::prelude::*;

verus! {

/// A handle on a consumer. It reads on from what the consumer has committed.
pub struct TopicConsumer {
    reader: TopicReader,
    name: Vec<u8>,
    committed: u64,
}

impl TopicConsumer {
    pub closed spec fn name(&self) -> Seq<u8> {
        self.name@
    }

    pub closed spec fn committed(&self) -> u64 {
        self.committed
    }

    pub closed spec fn reader(&self) -> TopicReader {
        self.reader
    }

    /// The handle belongs to the topic.
    pub open spec fn ok(&self, topic: &Topic) -> bool {
        &&& topic.consumers().contains_key(self.name())
        &&& topic.consumers()[self.name()].committed == self.committed()
        &&& self.name().len() <= store::MAX_NAME
        &&& self.reader().ok(&topic.log())
    }

    pub(crate) fn at(name: &Vec<u8>, offset: u64) -> (r: Self)
        ensures
            r.name() == name@,
            r.committed() == offset,
            r.reader().offset() == offset,
            r.reader().stands_in() is None,
            forall|log: &segment::SegmentLog| #[trigger] r.reader().ok(log),
    {
        TopicConsumer { reader: TopicReader::at(offset), name: name.duplicate(), committed: offset }
    }

    /// The next record, or `None` where there is none.
    pub fn next(&mut self, topic: &mut Topic) -> (r: Option<Vec<u8>>)
        requires
            old(topic).wf(),
            old(self).ok(old(topic)),
        ensures
            final(topic).read_only(old(topic)),
            final(self).ok(final(topic)),
            final(self).name() == old(self).name(),
            final(self).committed() == old(self).committed(),
            match r {
                Some(v) => old(self).reader().finds(&old(topic).log()) matches Some(f) && f.1 == v@
                    && final(self).reader().offset() == f.0 + 1,
                None => old(self).reader().finds(&old(topic).log()) is None && final(self).reader().offset() == old(
                    topic,
                ).log().next(),
            },
            // The record at the reader's offset, where it is retained; and for a reader in no segment whose
            // record is gone, the first that is.
            old(self).reader().offset() >= old(topic).log().earliest() ==> match r {
                Some(v) => old(self).reader().offset() < old(topic).log().next()
                    && v@ == old(topic).records()[old(self).reader().offset() - old(topic).log().earliest()]
                    && final(self).reader().offset()
                    == old(self).reader().offset() + 1,
                None => old(self).reader().offset() >= old(topic).log().next(),
            },
            old(self).reader().offset() < old(topic).log().earliest() && old(self).reader().stands_in() is None ==> match r {
                Some(v) => old(topic).log().earliest() < old(topic).log().next() && v@ == old(topic).records()[0]
                    && final(self).reader().offset() == old(topic).log().earliest() + 1,
                None => old(topic).log().earliest() == old(topic).log().next(),
            },
    {
        match topic.read(&mut self.reader) {
            Some((_, v)) => Some(v),
            None => None,
        }
    }

    /// Stores the offset of the next record, from which the consumer starts when it is opened
    /// again.
    pub fn commit(&mut self, topic: &mut Topic) -> (r: Result<(), StorageError>)
        requires
            old(topic).wf(),
            old(self).ok(old(topic)),
        ensures
            final(topic).wf(),
            final(topic).config_view() == old(topic).config_view(),
            final(topic).log() == old(topic).log(),
            final(self).ok(final(topic)),
            final(self).name() == old(self).name(),
            final(self).reader() == old(self).reader(),
            match r {
                Ok(_) => {
                    let o = old(self).reader().offset();
                    &&& old(topic).store().offset_room(old(self).name())
                    &&& final(self).committed() == o
                    &&& final(topic).consumers() == old(topic).consumers().insert(
                        old(self).name(),
                        (Standing {
                            committed: o,
                            volatile: o,
                            active: old(topic).consumers()[old(self).name()].active,
                        }),
                    )
                    &&& store::offset_stored(
                        old(topic).store().offsets(),
                        final(topic).store().offsets(),
                        old(self).name(),
                        o,
                    )
                },
                Err(e) => e == StorageError::StorageFull && !old(topic).store().offset_room(old(self).name())
                    && *final(topic) == *old(topic) && *final(self) == *old(self),
            },
    {
        let o: u64 = self.reader.offset_now();
        let active: bool = match topic.standing(&self.name) {
            Some(s) => s.active,
            None => false,
        };
        match topic.store_offset(&self.name, Standing { committed: o, volatile: o, active }) {
            Ok(_) => {
                self.committed = o;
                Ok(())
            },
            Err(e) => Err(e),
        }
    }

    /// Goes back to what was committed last.
    pub fn reset(&mut self, topic: &mut Topic)
        requires
            old(topic).wf(),
            old(self).ok(old(topic)),
        ensures
            final(topic).read_only(old(topic)),
            final(self).ok(final(topic)),
            final(self).name() == old(self).name(),
            final(self).committed() == old(self).committed(),
            final(self).reader().offset() == old(self).committed(),
            final(self).reader().stands_in() is None,
    {
        let _ = topic.seek(&mut self.reader, SeekTarget::Offset(self.committed));
    }

    /// Goes to a target. Gives whether there is a record.
    pub fn seek(&mut self, target: SeekTarget, topic: &mut Topic) -> (r: bool)
        requires
            old(topic).wf(),
            old(self).ok(old(topic)),
        ensures
            final(topic).read_only(old(topic)),
            final(self).ok(final(topic)),
            final(self).name() == old(self).name(),
            final(self).committed() == old(self).committed(),
            final(self).reader().stands_in() is None,
            match target {
                SeekTarget::Offset(o) => final(self).reader().offset() == o && r == (o < old(topic).log().next()),
                SeekTarget::Earliest => final(self).reader().offset() == old(topic).log().earliest() && r == (old(
                    topic,
                ).log().earliest() < old(topic).log().next()),
                SeekTarget::Latest => final(self).reader().offset() == old(topic).log().next() && !r,
            },
    {
        topic.seek(&mut self.reader, target)
    }

    /// Forgets the consumer and what it has committed. Where that fails, the handle is closed.
    pub fn delete(self, topic: &mut Topic) -> (r: Result<(), StorageError>)
        requires
            old(topic).wf(),
            self.ok(old(topic)),
        ensures
            final(topic).wf(),
            final(topic).config_view() == old(topic).config_view(),
            final(topic).log().same(old(topic).log()),
            old(topic).log().let_out(&final(topic).log(), self.reader().stands_in()),
            segment::grew(old(topic).log().held(), final(topic).log().held(), old(topic).log().next()),
            match r {
                Ok(_) => {
                    &&& old(topic).store().offsets().has_room(16 + self.name().len() as int)
                    &&& final(topic).consumers() == old(topic).consumers().remove(self.name())
                    &&& store::offset_buried(
                        old(topic).store().offsets(),
                        final(topic).store().offsets(),
                        self.name(),
                    )
                },
                Err(e) => e == StorageError::StorageFull && !old(topic).store().offsets().has_room(
                    16 + self.name().len() as int,
                ) && final(topic).consumers() == old(topic).consumers().insert(
                    self.name(),
                    (Standing { active: false, ..old(topic).consumers()[self.name()] }),
                ),
            },
    {
        let mut me: TopicConsumer = self;
        topic.let_go(&mut me.reader);
        match topic.forget(&me.name) {
            Ok(_) => Ok(()),
            Err(e) => {
                me.set_inactive(topic);
                Err(e)
            },
        }
    }

    fn set_inactive(&self, topic: &mut Topic)
        requires
            old(topic).wf(),
            old(topic).consumers().contains_key(self.name()),
        ensures
            final(topic).wf(),
            final(topic).config_view() == old(topic).config_view(),
            final(topic).log() == old(topic).log(),
            final(topic).consumers() == old(topic).consumers().insert(
                self.name(),
                (Standing { active: false, ..old(topic).consumers()[self.name()] }),
            ),
    {
        match topic.standing(&self.name) {
            Some(s) => {
                topic.note(
                    &self.name,
                    Standing { committed: s.committed, volatile: s.volatile, active: false },
                );
            },
            None => {},
        }
    }

    /// Closes the handle. What was read and not committed will be read again.
    pub fn close(self, topic: &mut Topic)
        requires
            old(topic).wf(),
            self.ok(old(topic)),
        ensures
            final(topic).wf(),
            final(topic).config_view() == old(topic).config_view(),
            final(topic).log().same(old(topic).log()),
            old(topic).log().let_out(&final(topic).log(), self.reader().stands_in()),
            segment::grew(old(topic).log().held(), final(topic).log().held(), old(topic).log().next()),
            final(topic).consumers() == old(topic).consumers().insert(
                self.name(),
                (Standing { active: false, ..old(topic).consumers()[self.name()] }),
            ),
    {
        let mut me: TopicConsumer = self;
        topic.let_go(&mut me.reader);
        me.set_inactive(topic);
    }
}

} // verus!
