//! A table whose newest rows wait in memory: reads see them laid over the rows of the store, and
//! every change is appended to a topic at once. The rows in memory go to the store when there are
//! too many of them, or on request; when the table is opened again, the topic gives back those
//! that never got there.

use crate::backend::state::{MemList, State, StateConfig, StateStats};
use crate::backend::traits;
use crate::backend::traits::{DurableStorage, OrderedReadBackend, ReadBackend, Storage, WriteBackend};
use crate::engine::btree;
use crate::engine::keydir;
use crate::engine::lists;
use crate::engine::log;
use crate::engine::maps;
use crate::engine::skiplist;
use crate::engine::skiplist::{SkipList, SkipListCapacity, SkipListConfig, SkipListStats};
use crate::engine::topic;
use crate::engine::topic::{Topic, TopicConfig, TopicConsumer};
use crate::error::StorageError;
use crate::table::change;
use crate::table::change::{Change, ChangeData, Event};
use crate::table::merge;
use crate::table::merge::IterationOrder;
use crate::table::replay;
use crate::table::table::{change_of, others_stay, recovery_name, recovery_name_bytes, value_of};
use crate::topic::reader;
use crate::topic::registry::Standing;
use crate::topic::segment;
use crate::topic::store;
use crate::topic::store::TopicStats;
use crate::utils::key::Key;
use crate::utils::lex;
use vstd::prelude::*;

verus! {

pub const DEFAULT_MAX_BUFFERED_RECORDS: usize = 1000;

#[derive(Clone, Copy, Debug)]
pub struct TableConfig {
    pub sync: bool,
    pub state: StateConfig,
    /// How many rows may wait in memory.
    pub max_buffered_records: usize,
    pub topic: TopicConfig,
}

impl Default for TableConfig {
    fn default() -> (r: Self)
        ensures
            !r.sync,
            r.state == StateConfig::Ordered(btree::usual()),
            r.max_buffered_records == DEFAULT_MAX_BUFFERED_RECORDS,
            r.max_buffered_records == 1000,
            r.topic.max_segment_bytes == topic::DEFAULT_MAX_SEGMENT_BYTES,
            r.topic.offsets == keydir::usual(),
    {
        TableConfig {
            sync: false,
            state: StateConfig::default(),
            max_buffered_records: DEFAULT_MAX_BUFFERED_RECORDS,
            topic: TopicConfig::default(),
        }
    }
}

#[derive(Clone, Copy, Debug)]
pub struct TableStats {
    pub state: StateStats,
    pub cache: SkipListStats,
    pub topic: TopicStats,
}

/// The parts of a table.
pub struct Table {
    config: TableConfig,
    state: State,
    cache: MemList,
    novel_pending: usize,
    topic: Topic,
    recovery: TopicConsumer,
}

/// How many keys of the second the first has not.
pub open spec fn novel(m: Map<Seq<u8>, Seq<u8>>, over: Map<Seq<u8>, Seq<u8>>) -> int {
    over.dom().difference(m.dom()).len() as int
}

/// All entries are of sizes that the store takes.
pub open spec fn all_taken(config: StateConfig, m: Map<Seq<u8>, Seq<u8>>) -> bool {
    forall|k: Seq<u8>| #[trigger] m.contains_key(k) ==> State::takes(config, k, m[k])
}

impl Table {
    pub closed spec fn state_view(&self) -> State {
        self.state
    }

    pub closed spec fn cache_view(&self) -> MemList {
        self.cache
    }

    pub closed spec fn topic_view(&self) -> Topic {
        self.topic
    }

    pub closed spec fn recovery_view(&self) -> TopicConsumer {
        self.recovery
    }

    pub closed spec fn config_view(&self) -> TableConfig {
        self.config
    }

    /// The rows: those in memory laid over those of the store.
    pub open spec fn rows(&self) -> Map<Seq<u8>, Seq<u8>> {
        merge::overlay(self.state_view().map(), self.cache_view().map())
    }

    pub closed spec fn wf(&self) -> bool {
        &&& self.parts_ok()
        &&& self.novel_pending == novel(self.state.map(), self.cache.map())
        &&& self.state.map().len() + self.novel_pending <= usize::MAX
    }

    closed spec fn parts_ok(&self) -> bool {
        &&& self.state.valid()
        &&& self.state.map().dom().finite()
        &&& self.cache.valid()
        &&& self.cache.map().dom().finite()
        &&& self.cache.settings().capacity == (SkipListCapacity::Bounded {
            max_entries: self.config.max_buffered_records,
        })
        &&& self.config.max_buffered_records <= skiplist::MAX_NODES
        &&& all_taken(self.config.state, self.cache.map())
        &&& self.topic.wf()
        &&& self.recovery.ok(&self.topic)
        &&& self.recovery.name() == recovery_name()
        &&& self.topic.consumers()[recovery_name()].active
        &&& self.state.settings() == self.config.state
        &&& self.topic.config_view() == self.config.topic
    }

    /// The store and the rows in memory are in order.
    pub proof fn lemma_stores(&self)
        requires
            self.wf(),
        ensures
            self.state_view().valid(),
            self.state_view().settings() == self.config_view().state,
            self.cache_view().valid(),
    {
    }

    /// What a table promises to its users.
    pub proof fn lemma_wf(&self)
        requires
            self.wf(),
        ensures
            self.topic_view().wf(),
            self.topic_view().consumers().contains_key(recovery_name()),
            self.topic_view().consumers()[recovery_name()].active,
            self.topic_view().config_view() == self.config_view().topic,
    {
    }

    /// From where the changes are replayed when the table is opened again.
    pub open spec fn noted(&self) -> u64 {
        self.topic_view().consumers()[recovery_name()].committed
    }

    /// Up to where the rows have the changes.
    pub open spec fn reached(&self) -> u64 {
        self.topic_view().consumers()[recovery_name()].volatile
    }

    /// The store is as it was, or has all rows that there were, and it is noted how far they are.
    pub open spec fn settled(&self, to: &Self) -> bool {
        ||| to.state_view().map() == self.state_view().map() && to.noted() == self.noted()
        ||| to.state_view().map() == self.rows() && to.noted() == self.reached()
    }

    /// The store has some of the rows as they were in it, and the others as they were on top.
    pub open spec fn partly_settled(&self, to: &Self) -> bool {
        &&& to.noted() == self.noted()
        &&& forall|k: Seq<u8>| #[trigger]
            maps::agree_at(to.state_view().map(), self.state_view().map(), k) || maps::agree_at(
                to.state_view().map(),
                self.rows(),
                k,
            )
    }

    /// The settings can be met.
    pub open spec fn feasible(config: TableConfig) -> bool {
        &&& State::feasible(config.state)
        &&& config.max_buffered_records <= skiplist::MAX_NODES
        &&& config.topic.offsets.initial_capacity <= log::MAX_LOG
    }

    /// Nothing has changed but where rows are kept, and what the recovery has noted.
    pub open spec fn same_rows(&self, to: &Self) -> bool {
        &&& to.wf()
        &&& to.config_view() == self.config_view()
        &&& to.rows() == self.rows()
        &&& to.topic_view().log().same(self.topic_view().log())
        &&& others_stay(self.topic_view().consumers(), to.topic_view().consumers())
    }

    fn new_cache(max: usize) -> (r: MemList)
        requires
            max <= skiplist::MAX_NODES,
        ensures
            r.valid(),
            r.map() == Map::<Seq<u8>, Seq<u8>>::empty(),
            r.settings().capacity == (SkipListCapacity::Bounded { max_entries: max }),
    {
        let r: MemList = SkipList::new(SkipListConfig { capacity: SkipListCapacity::Bounded { max_entries: max } });
        assert(r.map() =~= Map::<Seq<u8>, Seq<u8>>::empty());
        r
    }

    /// A table without rows.
    pub fn create(config: TableConfig) -> (r: Result<Table, StorageError>)
        ensures
            match r {
                Ok(t) => {
                    &&& Table::feasible(config)
                    &&& t.wf()
                    &&& t.config_view() == config
                    &&& t.state_view().map() == Map::<Seq<u8>, Seq<u8>>::empty()
                    &&& t.rows() == Map::<Seq<u8>, Seq<u8>>::empty()
                    &&& t.state_view().fresh()
                    &&& t.cache_view().map() == Map::<Seq<u8>, Seq<u8>>::empty()
                    &&& !t.offset_refused()
                    &&& t.topic_view().records() == Seq::<Seq<u8>>::empty()
                    &&& t.topic_view().log().next() == 0
                    &&& t.topic_view().stats_view().retained_bytes == segment::HEADER_SIZE
                    &&& t.noted() == 0
                    &&& t.reached() == 0
                },
                Err(e) => !Table::feasible(config) && e == StorageError::StorageFull,
            },
    {
        if config.max_buffered_records > skiplist::MAX_NODES {
            return Err(StorageError::StorageFull);
        }
        let state: State = match State::create(config.state) {
            Ok(s) => s,
            Err(e) => {
                return Err(e);
            },
        };
        let mut topic: Topic = match Topic::create(config.topic) {
            Ok(t) => t,
            Err(e) => {
                return Err(e);
            },
        };
        let name: Vec<u8> = recovery_name_bytes();
        assert(log::encode_all(Seq::<log::Rec>::empty()).len() == 0);
        let recovery: TopicConsumer = match topic.consumer(&name) {
            Ok(c) => c,
            Err(e) => {
                assert(false);
                return Err(e);
            },
        };
        let cache: MemList = Table::new_cache(config.max_buffered_records);
        let t = Table { config, state, cache, novel_pending: 0, topic, recovery };
        proof {
            assert(t.rows() =~= Map::<Seq<u8>, Seq<u8>>::empty());
            assert(t.cache.map().dom().difference(t.state.map().dom()) =~= Set::<Seq<u8>>::empty());
        }
        Ok(t)
    }

    /// There is no room to store where the recovery stands.
    pub open spec fn offset_refused(&self) -> bool {
        !self.topic_view().store().offset_room(recovery_name())
    }

    /// The rows in memory, in key order.
    pub open spec fn waiting(&self, rows: Seq<(Vec<u8>, Vec<u8>)>) -> bool {
        maps::ascending(rows) && maps::map_of(rows) == self.cache_view().map()
    }

    /// The store, which has become `s` with the first `n` of the rows in memory, has no room for the
    /// next one.
    pub open spec fn overflows(&self, rows: Seq<(Vec<u8>, Vec<u8>)>, n: int, s: State) -> bool {
        &&& self.waiting(rows)
        &&& 0 <= n < rows.len()
        &&& traits::after_puts(self.state_view(), s, rows.take(n))
        &&& !s.room(rows[n].0@, rows[n].1@)
    }

    /// The store has room for the rows in memory, one after the other, and the topic for where the
    /// recovery stands.
    pub open spec fn drainable(&self) -> bool {
        ||| self.cache_view().map() == Map::<Seq<u8>, Seq<u8>>::empty()
        ||| {
            &&& !self.offset_refused()
            &&& forall|rows: Seq<(Vec<u8>, Vec<u8>)>| #[trigger]
                self.waiting(rows) ==> traits::room_in_turn(self.state_view(), rows)
        }
    }

    /// The store took the rows in memory, one after the other.
    pub open spec fn took_all(&self, to: &Self) -> bool {
        &&& to.state_view().map() == self.rows()
        &&& exists|rows: Seq<(Vec<u8>, Vec<u8>)>| #[trigger]
            self.waiting(rows) && traits::after_puts(self.state_view(), to.state_view(), rows)
    }

    /// The store and what is noted of it are as they were.
    pub open spec fn untouched(&self, to: &Self) -> bool {
        &&& to.state_view() == self.state_view()
        &&& to.noted() == self.noted()
        &&& to.topic_view().store().offsets() == self.topic_view().store().offsets()
    }

    /// The rows in memory went to the store, and it is noted how far they are. Where there were none,
    /// nothing has changed.
    pub open spec fn stored(&self, to: &Self) -> bool {
        if self.cache_view().map() == Map::<Seq<u8>, Seq<u8>>::empty() {
            self.untouched(to)
        } else {
            &&& self.took_all(to)
            &&& to.noted() == self.reached()
            &&& store::offset_stored(
                self.topic_view().store().offsets(),
                to.topic_view().store().offsets(),
                recovery_name(),
                self.reached(),
            )
        }
    }

    /// The rows in memory did not all go to the store: it took those before the first that found no
    /// room, and all of them still wait; or it took them all, and there was no room to note it.
    pub open spec fn not_stored(&self, to: &Self) -> bool {
        ||| exists|rows: Seq<(Vec<u8>, Vec<u8>)>, n: int, s: State| #[trigger]
            self.overflows(rows, n, s) && to.state_view().map() == s.map() && to.cache_view() == self.cache_view()
        ||| {
            &&& self.offset_refused()
            &&& self.cache_view().map() != Map::<Seq<u8>, Seq<u8>>::empty()
            &&& self.took_all(to)
            &&& to.cache_view().map() == Map::<Seq<u8>, Seq<u8>>::empty()
        }
    }

    /// Writes the rows in memory to the store. What reads see does not change, whether or not
    /// that succeeds.
    pub fn drain_cache(&mut self) -> (r: Result<(), StorageError>)
        requires
            old(self).wf(),
        ensures
            old(self).same_rows(final(self)),
            final(self).topic_view().log() == old(self).topic_view().log(),
            final(self).reached() == old(self).reached(),
            match r {
                Ok(_) => {
                    &&& final(self).cache_view().map() == Map::<Seq<u8>, Seq<u8>>::empty()
                    &&& old(self).stored(final(self))
                    &&& old(self).settled(final(self))
                },
                Err(e) => {
                    &&& e == StorageError::StorageFull
                    &&& old(self).not_stored(final(self))
                    &&& old(self).partly_settled(final(self))
                },
            },
            old(self).drainable() ==> r is Ok,
            // The store has all rows then, and it is noted that it has all changes.
            r is Ok ==> final(self).state_view().map() == old(self).rows(),
            r is Ok && old(self).cache_view().map() != Map::<Seq<u8>, Seq<u8>>::empty() ==> final(
                self).topic_view().consumers()[recovery_name()].committed
                    == old(self).topic_view().consumers()[recovery_name()].volatile,
            r is Err ==> final(self).topic_view().consumers()[recovery_name()].committed
                == old(self).topic_view().consumers()[recovery_name()].committed,
    {
        let ghost log0 = self.topic.log();
        let ghost rows0 = self.rows();
        proof {
            lemma_same_log(log0);
        }
        if ReadBackend::is_empty(&self.cache) {
            proof {
                assert(self.cache.map() =~= Map::<Seq<u8>, Seq<u8>>::empty());
                assert(self.rows() =~= self.state.map());
            }
            return Ok(());
        }
        let all: Vec<(Vec<u8>, Vec<u8>)> = lists::entries(&self.cache);
        let ghost state0 = self.state.map();
        let ghost over = self.cache.map();
        let mut i: usize = 0;
        proof {
            maps::lemma_distinct(all@);
            maps::lemma_map_of(all@);
            assert(all@.take(0) =~= Seq::empty());
            assert(self.waiting(all@));
        }
        while i < all.len()
            invariant
                i <= all@.len(),
                old(self).waiting(all@),
                over != Map::<Seq<u8>, Seq<u8>>::empty(),
                traits::after_puts(old(self).state, self.state, all@.take(i as int)),
                self.wf(),
                self.config == old(self).config,
                self.topic == old(self).topic,
                log0 == self.topic.log(),
                log0.same(log0),
                self.cache == old(self).cache,
                over == self.cache.map(),
                rows0 == merge::overlay(state0, over),
                rows0 == old(self).rows(),
                maps::map_of(all@) == over,
                forall|j: int|
                    0 <= j < all@.len() ==> over.contains_key((#[trigger] all@[j]).0@) && over[all@[j].0@]
                        == all@[j].1@,
                self.state.map() == maps::put_all(state0, all@.take(i as int)),
                self.rows() == rows0,
                state0 == old(self).state.map(),
                forall|k: Seq<u8>| #[trigger]
                    maps::agree_at(self.state.map(), state0, k) || maps::agree_at(self.state.map(), rows0, k),
            decreases all.len() - i,
        {
            let ghost k = all@[i as int].0@;
            let ghost v = all@[i as int].1@;
            let ghost before = self.state.map();
            assert(over.contains_key(k));
            let fresh: bool = !self.state.contains(&all[i].0);
            let ghost state1 = self.state;
            match self.state.put(all[i].0.duplicate(), all[i].1.duplicate()) {
                Ok(_) => {},
                Err(e) => {
                    assert(old(self).overflows(all@, i as int, state1));
                    return Err(e);
                },
            }
            proof {
                lemma_moved(before, over, k, v);
                assert forall|q: Seq<u8>| #[trigger]
                    maps::agree_at(self.state.map(), state0, q) || maps::agree_at(self.state.map(), rows0, q) by {
                    assert(maps::agree_at(before, state0, q) || maps::agree_at(before, rows0, q));
                    if q == k {
                        assert(maps::agree_at(self.state.map(), rows0, q));
                    }
                }
                assert(all@.take(i + 1).drop_last() =~= all@.take(i as int));
                assert(traits::after_put(state1, self.state, all@.take(i + 1).last().0@, all@.take(i + 1).last().1@));
                assert(self.rows() =~= rows0);
            }
            if fresh {
                self.novel_pending = self.novel_pending - 1;
            }
            i = i + 1;
        }
        proof {
            assert(all@.take(i as int) =~= all@);
            maps::lemma_put_all_over(state0, all@);
        }
        let _ = WriteBackend::clear(&mut self.cache);
        self.novel_pending = 0;
        proof {
            assert(self.rows() =~= rows0);
            assert(self.cache.map().dom().difference(self.state.map().dom()) =~= Set::<Seq<u8>>::empty());
            assert(self.topic.log().same(log0));
        }
        self.recovery.commit(&mut self.topic)
    }

    /// The change that an event makes of its row.
    pub open spec fn change_by(&self, event: Event, current: Seq<u8>) -> ChangeData {
        change_of(event, event.sequence, value_of(self.rows(), event.primary_key@), current)
    }

    /// The sizes of a change can be written.
    pub open spec fn storable(&self, c: ChangeData) -> bool {
        c.code().len() <= u32::MAX && State::takes(self.config_view().state, c.primary_key, c.current->Some_0)
    }

    /// A record was appended to the topic.
    pub open spec fn appended(&self, to: &Self, record: Seq<u8>) -> bool {
        let d = to.topic_view().log().earliest() - self.topic_view().log().earliest();
        &&& 0 <= d
        &&& to.topic_view().log().next() == self.topic_view().log().next() + 1
        &&& to.topic_view().records() == self.topic_view().records().skip(d).push(record)
        &&& d > 0 ==> to.topic_view().log().earliest() <= to.noted()
        &&& to.reached() == to.topic_view().log().next()
        &&& others_stay(self.topic_view().consumers(), to.topic_view().consumers())
    }

    /// The rows in memory would be too many with one more under this key.
    pub open spec fn crowded(&self, key: Seq<u8>) -> bool {
        self.cache_view().map().len() >= self.config_view().max_buffered_records
            && !self.cache_view().map().contains_key(key)
    }

    /// No row can be added under this key: too many wait in memory, or there are as many rows as
    /// can be counted.
    pub open spec fn refuses(&self, key: Seq<u8>) -> bool {
        self.crowded(key) || !self.rows().contains_key(key) && self.rows().len() == usize::MAX
    }

    /// No row can be added under this key, even once those in memory went to the store: none may wait
    /// there, or there are as many rows as can be counted.
    pub open spec fn unplaceable(&self, key: Seq<u8>) -> bool {
        ||| self.config_view().max_buffered_records == 0 && !self.cache_view().map().contains_key(key)
        ||| !self.rows().contains_key(key) && self.rows().len() == usize::MAX
    }

    /// The rows in memory went to the store first where they would have been too many. Otherwise the
    /// store is as it was.
    pub open spec fn made_room(&self, to: &Self, key: Seq<u8>) -> bool {
        if self.crowded(key) {
            self.stored(to)
        } else {
            self.untouched(to)
        }
    }

    /// The rows that wait in memory once there is room for one under this key.
    pub open spec fn still_waiting(&self, key: Seq<u8>) -> Map<Seq<u8>, Seq<u8>> {
        if self.crowded(key) {
            Map::empty()
        } else {
            self.cache_view().map()
        }
    }

    /// There is a row under this key, of sizes that the store takes: where an event does not change
    /// it, it is put in memory as it is.
    pub open spec fn recalls(&self, key: Seq<u8>) -> bool {
        self.rows().contains_key(key) && State::takes(self.config_view().state, key, self.rows()[key])
    }

    /// What became of an event, where `out` is what it makes of its row.
    pub open spec fn inserted(
        &self,
        to: &Self,
        event: Event,
        out: Option<Vec<u8>>,
        r: Result<(), StorageError>,
    ) -> bool {
        let key = event.primary_key@;
        &&& self.made_room(to, key)
        &&& match out {
            None => {
                &&& self.same_rows(to)
                &&& self.settled(to)
                &&& to.reached() == self.reached()
                &&& match r {
                    Ok(_) => if self.recalls(key) {
                        &&& !self.unplaceable(key)
                        &&& to.cache_view().map() == self.still_waiting(key).insert(key, self.rows()[key])
                    } else {
                        to.cache_view().map() == self.still_waiting(key)
                    },
                    Err(e) => {
                        &&& e == StorageError::StorageFull
                        &&& self.recalls(key) && self.unplaceable(key)
                        &&& to.cache_view().map() == self.still_waiting(key)
                    },
                }
            },
            Some(current) => {
                let c = self.change_by(event, current@);
                let after = self.rows().insert(key, current@);
                match r {
                    Ok(_) => {
                        &&& self.storable(c)
                        &&& !self.unplaceable(key)
                        &&& self.topic_view().store().has_room(c.code().len() as int)
                        &&& to.rows() == after
                        &&& to.cache_view().map() == self.still_waiting(key).insert(key, current@)
                        &&& self.appended(to, c.code())
                        &&& self.settled(to)
                    },
                    Err(StorageError::InvalidInput) => {
                        &&& !self.storable(c)
                        &&& self.same_rows(to)
                        &&& to.cache_view().map() == self.still_waiting(key)
                    },
                    Err(e) => {
                        &&& e == StorageError::StorageFull
                        &&& self.storable(c)
                        &&& to.topic_view().log().same(self.topic_view().log())
                        &&& others_stay(self.topic_view().consumers(), to.topic_view().consumers())
                        &&& if self.unplaceable(key) {
                            &&& to.rows() == self.rows()
                            &&& to.cache_view().map() == self.still_waiting(key)
                        } else {
                            &&& !self.topic_view().store().has_room(c.code().len() as int)
                            &&& to.rows() == after
                            &&& to.cache_view().map() == self.still_waiting(key).insert(key, current@)
                        }
                    },
                }
            },
        }
    }

    /// Applies an event. `evaluate` says what it makes of its row: the row after it, or `None`
    /// where it changes nothing. The new row waits in memory, and the change is appended to the
    /// topic.
    pub fn insert_event<F: FnOnce(Option<Vec<u8>>) -> Option<Vec<u8>>>(&mut self, event: Event, evaluate: F) -> (r: Result<
        (),
        StorageError,
    >)
        requires
            old(self).wf(),
            forall|p: Option<Vec<u8>>| #[trigger] call_requires(evaluate, (p,)),
        ensures
            final(self).wf(),
            final(self).config_view() == old(self).config_view(),
            ({
                ||| {
                    &&& r == Err::<(), StorageError>(StorageError::StorageFull)
                    &&& old(self).crowded(event.primary_key@)
                    &&& !old(self).drainable()
                    &&& old(self).not_stored(final(self))
                    &&& old(self).partly_settled(final(self))
                    &&& old(self).same_rows(final(self))
                }
                ||| exists|p: Option<Vec<u8>>, out: Option<Vec<u8>>| #[trigger]
                    call_ensures(evaluate, (p,), out) && maps::holds(old(self).rows(), event.primary_key@, p) && old(
                        self,
                    ).inserted(final(self), event, out, r)
            }),
            // What the event makes of its row decides: it is shown the row as reads see it.
            r is Ok ==> exists|p: Option<Vec<u8>>, out: Option<Vec<u8>>| #[trigger]
                call_ensures(evaluate, (p,), out) && {
                    &&& match p {
                        Some(v) => old(self).rows().contains_key(event.primary_key@)
                            && old(self).rows()[event.primary_key@] == v@,
                        None => !old(self).rows().contains_key(event.primary_key@),
                    }
                    &&& match out {
                        Some(v) => {
                            &&& final(self).rows() == old(self).rows().insert(event.primary_key@, v@)
                            &&& final(self).topic_view().log().next() == old(self).topic_view().log().next() + 1
                        },
                        None => {
                            &&& final(self).rows() == old(self).rows()
                            &&& final(self).topic_view().log().next() == old(self).topic_view().log().next()
                        },
                    }
                },
            // What readers of the topic are told: the event as it came, and the row before and after it.
            final(self).topic_view().log().next() != old(self).topic_view().log().next() ==> {
                let told = change::parse(final(self).topic_view().records().last());
                &&& r is Ok
                &&& final(self).topic_view().records().len() > 0
                &&& told is Some
                &&& told->Some_0.author == event.author@
                &&& told->Some_0.sequence == event.sequence
                &&& told->Some_0.primary_key == event.primary_key@
                &&& told->Some_0.operations == event.operations@
                &&& match told->Some_0.previous {
                    Some(v) => old(self).rows().contains_key(event.primary_key@) && old(self).rows()[event.primary_key@]
                        == v,
                    None => !old(self).rows().contains_key(event.primary_key@),
                }
                &&& final(self).rows().contains_key(event.primary_key@)
                &&& told->Some_0.current == Some(final(self).rows()[event.primary_key@])
            },
            // The store is written to only where the rows in memory would be too many.
            old(self).cache_view().map().len() < old(self).config_view().max_buffered_records
                || old(self).cache_view().map().contains_key(event.primary_key@) ==> final(self).state_view()
                == old(self).state_view(),
    {
        let ghost start = *self;
        proof {
            self.topic.lemma_wf();
            lemma_same_log(self.topic.log());
        }
        if ReadBackend::size(&self.cache) >= self.config.max_buffered_records && !ReadBackend::contains(
            &self.cache,
            &event.primary_key,
        ) {
            match self.drain_cache() {
                Ok(_) => {},
                Err(e) => {
                    return Err(e);
                },
            }
        }
        let ghost mid = *self;
        let waiting: Option<Vec<u8>> = ReadBackend::get(&self.cache, &event.primary_key);
        let cached: bool = waiting.is_some();
        let previous: Option<Vec<u8>> = match waiting {
            Some(v) => Some(v),
            None => self.state.get(&event.primary_key),
        };
        let shown: Option<Vec<u8>> = match &previous {
            Some(v) => Some(v.duplicate()),
            None => None,
        };
        let visible: bool = previous.is_some();
        let ghost seen = shown;
        assert(maps::holds(self.rows(), event.primary_key@, seen));
        let out: Option<Vec<u8>> = evaluate(shown);
        assert(call_ensures(evaluate, (seen,), out));
        match out {
            None => match previous {
                Some(row) => {
                    if !cached {
                        if !self.state.accepts(&event.primary_key, &row) {
                            return Ok(());
                        }
                        let ghost value = row@;
                        let kept = self.keep(&event.primary_key, row, true);
                        proof {
                            assert(start.rows().insert(event.primary_key@, value) =~= start.rows());
                            assert(self.topic.log().same(start.topic.log()));
                        }
                        return kept;
                    }
                    proof {
                        let k = event.primary_key@;
                        let over = start.cache.map();
                        assert(over.contains_key(k) && over[k] == start.rows()[k]);
                        assert(over.insert(k, start.rows()[k]) =~= over);
                        assert(start.inserted(self, event, out, Ok(())));
                    }
                    Ok(())
                },
                None => Ok(()),
            },
            Some(current) => {
                let ghost c = start.change_by(event, current@);
                let key: Vec<u8> = event.primary_key.duplicate();
                let row: Vec<u8> = current.duplicate();
                let change = Change { event, previous, current: Some(current) };
                assert(change@ == c);
                let bytes: Vec<u8> = change.encode();
                assert(bytes@.len() == bytes.len());
                if bytes.len() as u64 > u32::MAX as u64 || !self.state.accepts(&key, &row) {
                    return Err(StorageError::InvalidInput);
                }
                match self.keep(&key, row, visible) {
                    Ok(_) => {},
                    Err(e) => {
                        return Err(e);
                    },
                }
                let ghost topic0 = self.topic;
                proof {
                    self.topic.lemma_wf();
                }
                let offset: u64 = match self.topic.append(&bytes) {
                    Ok(o) => o,
                    Err(e) => {
                        proof {
                            assert(self.topic.log().same(start.topic.log()));
                            assert(self.rows() =~= start.rows().insert(event.primary_key@, current@));
                        }
                        return Err(e);
                    },
                };
                proof {
                    self.topic.lemma_wf();
                    reader::growth_keeps_readers(self.recovery.reader(), topic0.log(), self.topic.log());
                }
                self.recovery.seek(offset + 1, &mut self.topic);
                proof {
                    assert(self.rows() =~= start.rows().insert(event.primary_key@, current@));
                    change::lemma_sized(c);
                    change::change_round_trip(c, Seq::empty());
                    assert(c.code() + Seq::<u8>::empty() =~= c.code());
                }
                Ok(())
            },
        }
    }

    /// Puts a row in memory.
    fn keep(&mut self, key: &Vec<u8>, row: Vec<u8>, visible: bool) -> (r: Result<(), StorageError>)
        requires
            old(self).wf(),
            visible == old(self).rows().contains_key(key@),
            State::takes(old(self).config.state, key@, row@),
        ensures
            final(self).wf(),
            final(self).config == old(self).config,
            final(self).topic == old(self).topic,
            final(self).recovery == old(self).recovery,
            final(self).state == old(self).state,
            match r {
                Ok(_) => {
                    &&& !old(self).refuses(key@)
                    &&& final(self).rows() == old(self).rows().insert(key@, row@)
                    &&& final(self).cache.map() == old(self).cache.map().insert(key@, row@)
                },
                Err(e) => {
                    &&& e == StorageError::StorageFull
                    &&& old(self).refuses(key@)
                    &&& final(self).rows() == old(self).rows()
                    &&& final(self).cache.map() == old(self).cache.map()
                },
            },
    {
        let ghost over = self.cache.map();
        let ghost base = self.state.map();
        proof {
            lists::lemma_gone(self.cache@, key@);
            assert(self.cache.map().dom() =~= self.cache@.dom());
            lemma_kept(base, over, key@, row@);
            lemma_count(base, over);
        }
        let below: usize = self.state.size();
        if !visible && below == usize::MAX - self.novel_pending {
            return Err(StorageError::StorageFull);
        }
        match WriteBackend::put(&mut self.cache, key.duplicate(), row) {
            Ok(_) => {
                proof {
                    assert(self.rows() =~= old(self).rows().insert(key@, row@));
                    lemma_novel_bound(base, self.cache.map());
                    lists::lemma_gone(self.cache@, key@);
                    self.cache.lemma_items();
                }
                if !visible {
                    self.novel_pending = self.novel_pending + 1;
                }
                Ok(())
            },
            Err(e) => Err(e),
        }
    }
}

impl Table {
    /// The records that a replay goes through: those behind what the recovery has committed.
    pub open spec fn outstanding(&self) -> Seq<Seq<u8>> {
        replay::from_offset(self.topic_view().log(), self.recovery_view().reader().offset())
    }

    /// Applies to the store the changes that it may not have yet, and notes that it has them.
    fn replay_recovery(&mut self) -> (r: Result<(), StorageError>)
        requires
            old(self).wf(),
            old(self).cache.map() == Map::<Seq<u8>, Seq<u8>>::empty(),
            old(self).topic.log().earliest() <= old(self).recovery.reader().offset(),
        ensures
            final(self).wf(),
            final(self).config_view() == old(self).config_view(),
            final(self).cache_view().map() == Map::<Seq<u8>, Seq<u8>>::empty(),
            final(self).topic_view().log().same(old(self).topic_view().log()),
            others_stay(old(self).topic_view().consumers(), final(self).topic_view().consumers()),
            match r {
                Ok(_) => {
                    &&& change::all_parse(old(self).outstanding())
                    &&& final(self).rows() == change::replayed(old(self).rows(), old(self).outstanding())
                    &&& replay::applied_all(old(self).state_view(), final(self).state_view(), old(self).outstanding())
                    &&& final(self).noted() == old(self).recovery.reader().offset() + old(self).outstanding().len()
                    &&& final(self).reached() == final(self).noted()
                },
                Err(e) => {
                    ||| exists|n: int| #[trigger]
                        replay::stopped(old(self).state_view(), old(self).outstanding(), n, e)
                            && final(self).rows() == change::replayed(old(self).rows(), old(self).outstanding().take(n))
                    ||| {
                        &&& e == StorageError::StorageFull
                        &&& old(self).offset_refused()
                        &&& change::all_parse(old(self).outstanding())
                        &&& final(self).rows() == change::replayed(old(self).rows(), old(self).outstanding())
                    }
                },
            },
    {
        let ghost todo = self.outstanding();
        let ghost log0 = self.topic.log();
        let ghost o0 = self.recovery.reader().offset();
        let ghost mut n: int = 0;
        proof {
            self.topic.lemma_wf();
            assert(todo.take(0) =~= Seq::empty());
            lemma_same_log(log0);
            lemma_uncovered(*self);
            assert(self.cache.map().dom().difference(self.state.map().dom()) =~= Set::<Seq<u8>>::empty());
        }
        let mut done: bool = false;
        while !done
            invariant
                self.wf(),
                self.config == old(self).config,
                self.cache == old(self).cache,
                self.cache.map() == Map::<Seq<u8>, Seq<u8>>::empty(),
                self.novel_pending == 0,
                old(self).cache.map() == Map::<Seq<u8>, Seq<u8>>::empty(),
                todo == old(self).outstanding(),
                log0 == old(self).topic.log(),
                log0.wf(),
                log0.earliest() <= o0,
                self.topic.log().same(log0),
                others_stay(old(self).topic.consumers(), self.topic.consumers()),
                o0 == old(self).recovery.reader().offset(),
                todo == (if o0 <= log0.next() {
                    log0.records().skip(o0 - log0.earliest())
                } else {
                    Seq::empty()
                }),
                self.topic.store().offsets() == old(self).topic.store().offsets(),
                log0.records().len() == log0.next() - log0.earliest(),
                0 <= n <= todo.len(),
                self.recovery.reader().offset() == o0 + n,
                forall|i: int| 0 <= i < n ==> change::parse(#[trigger] todo[i]) is Some,
                self.state.map() == change::replayed(old(self).state.map(), todo.take(n)),
                replay::applied_all(old(self).state, self.state, todo.take(n)),
                old(self).state.settings() == self.config.state,
                self.rows() == change::replayed(old(self).rows(), todo.take(n)),
                old(self).rows() == old(self).state.map(),
                done ==> n == todo.len(),
            decreases todo.len() - n, (if done {
                0int
            } else {
                1int
            }),
        {
            proof {
                self.topic.lemma_wf();
            }
            let record: Option<Vec<u8>> = self.recovery.next(&mut self.topic);
            match record {
                None => {
                    done = true;
                },
                Some(bytes) => {
                    proof {
                        assert(n < todo.len());
                        assert(bytes@ == todo[n]);
                        assert(todo.take(n + 1).drop_last() =~= todo.take(n));
                    }
                    let ghost state1 = self.state;
                    match replay::apply(&mut self.state, &bytes) {
                        Ok(_) => {},
                        Err(e) => {
                            proof {
                                assert(replay::applied_all(old(self).state, state1, todo.take(n)));
                                assert(replay::stopped(old(self).state, todo, n, e));
                            }
                            return Err(e);
                        },
                    }
                    let rows: usize = self.state.size();
                    proof {
                        assert(replay::applied(state1, self.state, todo.take(n + 1).last()));
                        n = n + 1;
                        assert(rows == self.state.map().len());
                        assert(self.state.map().dom().finite());
                        assert(self.cache.map().dom().difference(self.state.map().dom()) =~= Set::<Seq<u8>>::empty());
                        lemma_uncovered(*self);
                    }
                },
            }
        }
        assert(todo.take(n) =~= todo);
        self.recovery.commit(&mut self.topic)
    }

    /// The parts can be opened, none of the changes that the store may not have yet is gone, and the
    /// store has room for them, and the topic for the offset of the recovery.
    pub open spec fn opens(
        state_image: Seq<u8>,
        files: Seq<(u64, Vec<u8>)>,
        offsets: Seq<u8>,
        config: TableConfig,
    ) -> bool {
        &&& config.max_buffered_records <= skiplist::MAX_NODES
        &&& State::opens(config.state, state_image)
        &&& forall|e: StorageError| !#[trigger] Topic::open_error(files, offsets, config.topic, e)
        &&& forall|topic: Topic| #[trigger]
            Topic::opened_from(files, offsets, config.topic, topic) ==> !lost(topic) && !cramped(topic)
        &&& forall|topic: Topic, state: State| #[trigger]
            Topic::opened_from(files, offsets, config.topic, topic) && #[trigger] State::opened(
                config.state,
                state_image,
                state,
            ) ==> replay::goes_through(state, todo_of(topic))
    }

    /// Opens a table from what its parts were kept as, and applies the changes that the store may
    /// not have yet.
    pub fn open(
        state_image: Vec<u8>,
        files: Vec<(u64, Vec<u8>)>,
        offsets: Vec<u8>,
        config: TableConfig,
    ) -> (r: Result<Table, StorageError>)
        requires
            files@.len() > 0,
            State::sound_image(config.state, state_image@),
        ensures
            match r {
                Ok(t) => {
                    &&& t.wf()
                    &&& t.config_view() == config
                    &&& State::opens(config.state, state_image@)
                    &&& t.cache_view().map() == Map::<Seq<u8>, Seq<u8>>::empty()
                    &&& exists|topic: Topic, state: State|
                        {
                            &&& Topic::opened_from(files@, offsets@, config.topic, topic)
                            &&& !lost(topic)
                            &&& State::opened(config.state, state_image@, state)
                            &&& change::all_parse(todo_of(topic))
                            &&& t.rows() == change::replayed(state.map(), todo_of(topic))
                            &&& #[trigger] replay::applied_all(state, t.state_view(), todo_of(topic))
                            &&& t.topic_view().log().same(topic.log())
                            &&& others_stay(topic.consumers(), t.topic_view().consumers())
                            &&& t.noted() == replay::starts_at(recovery_name(), topic.consumers(), topic.log().next())
                                + todo_of(topic).len()
                        }
                    &&& t.reached() == t.noted()
                },
                Err(e) => {
                    ||| config.max_buffered_records > skiplist::MAX_NODES && e == StorageError::StorageFull
                    ||| !State::opens(config.state, state_image@) && e == traits::unopened(
                        State::oversized(config.state, state_image@),
                    )
                    ||| Topic::open_error(files@, offsets@, config.topic, e)
                    ||| e == StorageError::InvalidData && exists|topic: Topic| #[trigger]
                        Topic::opened_from(files@, offsets@, config.topic, topic) && lost(topic)
                    ||| e == StorageError::StorageFull && exists|topic: Topic| #[trigger]
                        Topic::opened_from(files@, offsets@, config.topic, topic) && cramped(topic)
                    ||| exists|topic: Topic, state: State, n: int|
                        {
                            &&& Topic::opened_from(files@, offsets@, config.topic, topic)
                            &&& State::opened(config.state, state_image@, state)
                            &&& #[trigger] replay::stopped(state, todo_of(topic), n, e)
                        }
                },
            },
            Table::opens(state_image@, files@, offsets@, config) ==> r is Ok,
    {
        if config.max_buffered_records > skiplist::MAX_NODES {
            return Err(StorageError::StorageFull);
        }
        let state: State = match State::open(state_image, config.state) {
            Ok(s) => s,
            Err(e) => {
                return Err(e);
            },
        };
        let mut topic: Topic = match Topic::open(files, offsets, config.topic) {
            Ok(t) => t,
            Err(e) => {
                return Err(e);
            },
        };
        let ghost opened = topic;
        let name: Vec<u8> = recovery_name_bytes();
        let recovery: TopicConsumer = match topic.consumer(&name) {
            Ok(c) => c,
            Err(e) => {
                assert(cramped(opened));
                return Err(e);
            },
        };
        proof {
            topic.lemma_wf();
        }
        let rows: usize = state.size();
        if recovery.offset() < topic.stats().earliest_offset {
            assert(lost(opened));
            return Err(StorageError::InvalidData);
        }
        let cache: MemList = Table::new_cache(config.max_buffered_records);
        let mut table = Table { config, state, cache, novel_pending: 0, topic, recovery };
        let ghost before = table;
        proof {
            assert(table.cache.map().dom().difference(table.state.map().dom()) =~= Set::<Seq<u8>>::empty());
            lemma_uncovered(table);
        }
        assert(before.outstanding() == todo_of(opened));
        match table.replay_recovery() {
            Ok(_) => {
                assert(table.rows() == change::replayed(before.state.map(), todo_of(opened)));
                Ok(table)
            },
            Err(e) => {
                proof {
                    if exists|n: int| #[trigger] replay::stopped(before.state, todo_of(opened), n, e) {
                        let n = choose|n: int| #[trigger] replay::stopped(before.state, todo_of(opened), n, e);
                        assert(replay::stopped(before.state, todo_of(opened), n, e));
                    } else {
                        assert(cramped(opened));
                    }
                }
                Err(e)
            },
        }
    }

    /// Writes the rows in memory to the store, to be written out with it.
    pub fn flush(&mut self) -> (r: Result<(), StorageError>)
        requires
            old(self).wf(),
        ensures
            old(self).same_rows(final(self)),
            final(self).topic_view().log() == old(self).topic_view().log(),
            final(self).reached() == old(self).reached(),
            match r {
                Ok(_) => {
                    &&& final(self).cache_view().map() == Map::<Seq<u8>, Seq<u8>>::empty()
                    &&& old(self).stored(final(self))
                    &&& old(self).settled(final(self))
                },
                Err(e) => {
                    &&& e == StorageError::StorageFull
                    &&& old(self).not_stored(final(self))
                    &&& old(self).partly_settled(final(self))
                },
            },
            old(self).drainable() ==> r is Ok,
            // The store has all rows then, and it is noted that it has all changes.
            r is Ok ==> final(self).state_view().map() == old(self).rows(),
            r is Ok && old(self).cache_view().map() != Map::<Seq<u8>, Seq<u8>>::empty() ==> final(
                self).topic_view().consumers()[recovery_name()].committed
                    == old(self).topic_view().consumers()[recovery_name()].volatile,
            r is Err ==> final(self).topic_view().consumers()[recovery_name()].committed
                == old(self).topic_view().consumers()[recovery_name()].committed,
    {
        self.drain_cache()
    }

    /// Gives up space in the store, and the front of the topic that every consumer is done with.
    pub fn compact(&mut self) -> (r: Result<(), StorageError>)
        requires
            old(self).wf(),
        ensures
            final(self).wf(),
            final(self).config_view() == old(self).config_view(),
            final(self).rows() == old(self).rows(),
            final(self).state_view().map() == old(self).state_view().map(),
            final(self).cache_view() == old(self).cache_view(),
            final(self).topic_view().consumers() == old(self).topic_view().consumers(),
            final(self).topic_view().store().offsets() == old(self).topic_view().store().offsets(),
            final(self).topic_view().log().next() == old(self).topic_view().log().next(),
            old(self).topic_view().log().earliest() <= final(self).topic_view().log().earliest(),
            final(self).topic_view().records() == old(self).topic_view().records().skip(
                final(self).topic_view().log().earliest() - old(self).topic_view().log().earliest(),
            ),
            old(self).state_view().compactable() ==> r is Ok,
            match r {
                Ok(_) => {
                    &&& old(self).state_view().compacted(&final(self).state_view())
                    &&& final(self).topic_view().log().kept() == old(self).topic_view().log().kept().skip(
                        store::done_with(old(self).topic_view().store().bounds(), old(self).topic_view().consumers()),
                    )
                },
                Err(e) => e == StorageError::StorageFull && *final(self) == *old(self),
            },
            // All of the topic that no consumer needs has gone, but for the last segment.
            r is Ok && final(self).topic_view().log().kept().len() > 1 ==> exists|n: Seq<u8>| #[trigger]
                old(self).topic_view().consumers().contains_key(n) && old(self).topic_view().consumers()[n].committed
                    < final(self).topic_view().log().kept()[0].end(),
            forall|n: Seq<u8>| #[trigger]
                old(self).topic_view().consumers().contains_key(n) && final(self).topic_view().log().earliest()
                    > old(self).topic_view().log().earliest() ==> final(self).topic_view().log().earliest()
                    <= old(self).topic_view().consumers()[n].committed,
    {
        proof {
            let all = self.topic.records();
            assert(all.skip(0) =~= all);
            self.topic.lemma_wf();
        }
        match self.state.compact() {
            Ok(_) => {},
            Err(e) => {
                return Err(e);
            },
        }
        let ghost topic0 = self.topic;
        let r = self.topic.compact();
        proof {
            self.topic.lemma_wf();
            reader::growth_keeps_readers(self.recovery.reader(), topic0.log(), self.topic.log());
        }
        r
    }

    /// Opens a named consumer of the changes. The table's own name is taken.
    pub fn consumer(&mut self, name: &Vec<u8>) -> (r: Result<TopicConsumer, StorageError>)
        requires
            old(self).wf(),
            name@.len() <= store::MAX_NAME,
        ensures
            final(self).wf(),
            final(self).config_view() == old(self).config_view(),
            final(self).state_view() == old(self).state_view(),
            final(self).cache_view() == old(self).cache_view(),
            final(self).topic_view().log() == old(self).topic_view().log(),
            match r {
                Ok(c) => {
                    let known = old(self).topic_view().consumers().contains_key(name@);
                    let next = old(self).topic_view().log().next();
                    &&& known ==> !old(self).topic_view().consumers()[name@].active
                    &&& !known ==> old(self).topic_view().store().offset_room(name@)
                    &&& if known {
                        final(self).topic_view().store().offsets() == old(self).topic_view().store().offsets()
                    } else {
                        store::offset_stored(
                            old(self).topic_view().store().offsets(),
                            final(self).topic_view().store().offsets(),
                            name@,
                            old(self).topic_view().log().next(),
                        )
                    }
                    &&& name@ != recovery_name()
                    &&& final(self).topic_view().consumers() == old(self).topic_view().consumers().insert(
                        name@,
                        if known {
                            (Standing { active: true, ..old(self).topic_view().consumers()[name@] })
                        } else {
                            (Standing { committed: next, volatile: next, active: true })
                        },
                    )
                    &&& c.name() == name@
                    &&& c.reader().offset() == (if known {
                        old(self).topic_view().consumers()[name@].volatile
                    } else {
                        next
                    })
                    &&& c.ok(&final(self).topic_view())
                },
                Err(e) => {
                    &&& final(self).topic_view() == old(self).topic_view()
                    &&& if old(self).topic_view().consumers().contains_key(name@) {
                        e == StorageError::AlreadyExists && old(self).topic_view().consumers()[name@].active
                    } else {
                        e == StorageError::StorageFull && !old(self).topic_view().store().offset_room(name@)
                    }
                },
            },
    {
        self.topic.consumer(name)
    }

    pub fn stats(&self) -> (r: TableStats)
        requires
            self.wf(),
        ensures
            r.state == self.state_view().counters(),
            r.cache == self.cache_view().counters(),
            r.topic == self.topic_view().stats_view(),
    {
        TableStats { state: self.state.stats(), cache: Storage::stats(&self.cache), topic: self.topic.stats() }
    }

    pub fn config(&self) -> (r: TableConfig)
        ensures
            r == self.config_view(),
    {
        self.config
    }

    /// How many rows in memory the store has not.
    pub fn pending(&self) -> (r: usize)
        requires
            self.wf(),
        ensures
            r == novel(self.state_view().map(), self.cache_view().map()),
            r == self.rows().len() - self.state_view().map().len(),
    {
        proof {
            lists::lemma_gone(self.cache@, Seq::empty());
            assert(self.cache.map().dom() =~= self.cache@.dom());
            lemma_count(self.state.map(), self.cache.map());
        }
        self.novel_pending
    }

    /// What to keep of the store, the topic and the offsets of its consumers.
    pub fn images(&self) -> (r: (Vec<u8>, Vec<(u64, Vec<u8>)>, Vec<u8>))
        requires
            self.wf(),
        ensures
            State::durable(self.config_view().state) ==> State::keeps(
                self.config_view().state,
                r.0@,
                self.state_view().map(),
            ),
            segment::written_as(self.topic_view().log().kept(), r.1@, Seq::empty()),
            r.2@ == self.topic_view().store().offsets().image_view(),
    {
        (self.state.image(), self.topic.segments(), self.topic.offsets_image().duplicate())
    }

    // ---- reading ------------------------------------------------------------------------------

    /// How rows are listed where the store is no tree: the first `n` are those of the store that
    /// none in memory is laid over, in key order where it is a list; those in memory follow, in key
    /// order.
    pub open spec fn stacked(&self, rows: Seq<(Vec<u8>, Vec<u8>)>, n: int) -> bool {
        &&& 0 <= n <= rows.len()
        &&& maps::lists_entries(
            self.state_view().map().remove_keys(self.cache_view().map().dom()),
            rows.take(n),
        )
        &&& self.state_view() is InMemory ==> maps::ascending(rows.take(n))
        &&& self.waiting(rows.skip(n))
    }

    /// The rows with keys from `start` on and before `end`, in key order.
    pub fn range(&self, start: &Vec<u8>, end: &Vec<u8>) -> (r: Vec<(Vec<u8>, Vec<u8>)>)
        requires
            self.wf(),
            self.state_view().in_order(),
        ensures
            maps::ascending(r@),
            maps::map_of(r@) == maps::between(self.rows(), start@, Some(end@)),
    {
        let below: Vec<(Vec<u8>, Vec<u8>)> = self.state.range(start, end);
        let above: Vec<(Vec<u8>, Vec<u8>)> = lists::range(&self.cache, start, end);
        let ghost m = maps::map_of(below@);
        let ghost n = maps::map_of(above@);
        proof {
            lemma_ways(below@);
            lemma_ways(above@);
        }
        let r: Vec<(Vec<u8>, Vec<u8>)> = merge::merge(below, above, IterationOrder::Ascending);
        proof {
            lemma_ways(r@);
            assert(merge::overlay(m, n) =~= maps::between(self.rows(), start@, Some(end@)));
        }
        r
    }

    /// The rows with keys from `start` on and before `end`, in falling key order.
    pub fn range_rev(&self, start: &Vec<u8>, end: &Vec<u8>) -> (r: Vec<(Vec<u8>, Vec<u8>)>)
        requires
            self.wf(),
            self.state_view().in_order(),
        ensures
            maps::descending(r@),
            maps::map_of(r@) == maps::between(self.rows(), start@, Some(end@)),
    {
        let below: Vec<(Vec<u8>, Vec<u8>)> = self.state.range_rev(start, end);
        let above: Vec<(Vec<u8>, Vec<u8>)> = lists::range_rev(&self.cache, start, end);
        let ghost m = maps::map_of(below@);
        let ghost n = maps::map_of(above@);
        proof {
            lemma_ways(below@);
            lemma_ways(above@);
        }
        let r: Vec<(Vec<u8>, Vec<u8>)> = merge::merge(below, above, IterationOrder::Descending);
        proof {
            lemma_ways(r@);
            assert(merge::overlay(m, n) =~= maps::between(self.rows(), start@, Some(end@)));
        }
        r
    }

    /// The rows in falling key order.
    pub fn entries_rev(&self) -> (r: Vec<(Vec<u8>, Vec<u8>)>)
        requires
            self.wf(),
            self.state_view().in_order(),
        ensures
            maps::descending(r@),
            maps::map_of(r@) == self.rows(),
    {
        let below: Vec<(Vec<u8>, Vec<u8>)> = self.state.entries_rev();
        let above: Vec<(Vec<u8>, Vec<u8>)> = lists::entries_rev(&self.cache);
        proof {
            lemma_ways(below@);
            lemma_ways(above@);
        }
        let r: Vec<(Vec<u8>, Vec<u8>)> = merge::merge(below, above, IterationOrder::Descending);
        proof {
            lemma_ways(r@);
        }
        r
    }

    /// The row with the least key. Of equal keys the row in memory counts.
    pub fn first(&self) -> (r: Option<(Vec<u8>, Vec<u8>)>)
        requires
            self.wf(),
            self.state_view().in_order(),
        ensures
            maps::is_first(self.rows(), r),
    {
        proof {
            lex::order_laws();
        }
        match (self.state.first(), lists::first(&self.cache)) {
            (None, None) => {
                assert(self.rows().dom() =~= Set::<Seq<u8>>::empty());
                None
            },
            (Some(s), None) => {
                assert(!self.cache.map().contains_key(s.0@));
                Some(s)
            },
            (None, Some(c)) => Some(c),
            (Some(s), Some(c)) => match lex::compare_bytes(&s.0, &c.0) {
                lex::Order::Less => {
                    proof {
                        if self.cache.map().contains_key(s.0@) {
                            assert(lex::le(c.0@, s.0@));
                        }
                    }
                    Some(s)
                },
                _ => Some(c),
            },
        }
    }

    /// The row with the greatest key. Of equal keys the row in memory counts.
    pub fn last(&self) -> (r: Option<(Vec<u8>, Vec<u8>)>)
        requires
            self.wf(),
            self.state_view().in_order(),
        ensures
            maps::is_last(self.rows(), r),
    {
        proof {
            lex::order_laws();
        }
        match (self.state.last(), lists::last(&self.cache)) {
            (None, None) => {
                assert(self.rows().dom() =~= Set::<Seq<u8>>::empty());
                None
            },
            (Some(s), None) => {
                assert(!self.cache.map().contains_key(s.0@));
                Some(s)
            },
            (None, Some(c)) => Some(c),
            (Some(s), Some(c)) => match lex::compare_bytes(&s.0, &c.0) {
                lex::Order::Greater => {
                    proof {
                        if self.cache.map().contains_key(s.0@) {
                            assert(lex::le(s.0@, c.0@));
                        }
                    }
                    Some(s)
                },
                _ => Some(c),
            },
        }
    }
}

impl Storage for Table {
    type Stats = TableStats;

    type Config = TableConfig;

    open spec fn valid(&self) -> bool {
        self.wf()
    }

    open spec fn settings(&self) -> TableConfig {
        self.config_view()
    }

    open spec fn counters(&self) -> TableStats {
        TableStats {
            state: self.state_view().counters(),
            cache: self.cache_view().counters(),
            topic: self.topic_view().stats_view(),
        }
    }

    fn stats(&self) -> (r: TableStats) {
        Table::stats(self)
    }

    fn config(&self) -> (r: TableConfig) {
        Table::config(self)
    }
}

impl ReadBackend for Table {
    open spec fn map(&self) -> Map<Seq<u8>, Seq<u8>> {
        self.rows()
    }

    open spec fn in_order(&self) -> bool {
        self.state_view() is Ordered
    }

    fn get(&self, key: &Vec<u8>) -> (r: Option<Vec<u8>>) {
        match ReadBackend::get(&self.cache, key) {
            Some(v) => Some(v),
            None => self.state.get(key),
        }
    }

    fn contains(&self, key: &Vec<u8>) -> (r: bool) {
        ReadBackend::contains(&self.cache, key) || self.state.contains(key)
    }

    fn keys(&self) -> (r: Vec<Vec<u8>>)
        ensures
            !(self.state_view() is Ordered) ==> exists|all: Seq<(Vec<u8>, Vec<u8>)>, n: int| #[trigger]
                self.stacked(all, n) && maps::first_of_each(all, r@),
    {
        let all: Vec<(Vec<u8>, Vec<u8>)> = ReadBackend::entries(self);
        let r: Vec<Vec<u8>> = maps::listed_keys(&all, Ghost(self.rows()));
        proof {
            if !(self.state is Ordered) {
                let n = choose|n: int| #[trigger] self.stacked(all@, n);
                assert(self.stacked(all@, n) && maps::first_of_each(all@, r@));
            }
        }
        r
    }

    fn values(&self) -> (r: Vec<Vec<u8>>)
        ensures
            !(self.state_view() is Ordered) ==> exists|all: Seq<(Vec<u8>, Vec<u8>)>, n: int| #[trigger]
                self.stacked(all, n) && maps::second_of_each(all, r@),
    {
        let all: Vec<(Vec<u8>, Vec<u8>)> = ReadBackend::entries(self);
        let r: Vec<Vec<u8>> = maps::listed_values(&all, Ghost(self.rows()));
        proof {
            if !(self.state is Ordered) {
                let n = choose|n: int| #[trigger] self.stacked(all@, n);
                assert(self.stacked(all@, n) && maps::second_of_each(all@, r@));
            }
            let m = self.rows();
            let keys = choose|keys: Seq<Vec<u8>>|
                maps::lists_keys(m, keys) && (maps::ascending(all@) ==> maps::rising(keys))
                    && #[trigger] maps::values_under(m, keys, r@);
            assert(maps::values_under(self.map(), keys, r@));
        }
        r
    }

    fn entries(&self) -> (r: Vec<(Vec<u8>, Vec<u8>)>)
        ensures
            !(self.state_view() is Ordered) ==> exists|n: int| #[trigger] self.stacked(r@, n),
    {
        let below: Vec<(Vec<u8>, Vec<u8>)> = self.state.entries();
        let above: Vec<(Vec<u8>, Vec<u8>)> = lists::entries(&self.cache);
        match self.state {
            State::Ordered { .. } => {
                proof {
                    lemma_ways(below@);
                    lemma_ways(above@);
                }
                let r: Vec<(Vec<u8>, Vec<u8>)> = merge::merge(below, above, IterationOrder::Ascending);
                proof {
                    lemma_ways(r@);
                    maps::lemma_distinct(r@);
                }
                r
            },
            _ => {
                let ghost m = self.state.map();
                let ghost n = self.cache.map();
                let kept: Vec<(Vec<u8>, Vec<u8>)> = merge::not_shadowed(below, &above);
                let ghost (front, back) = (kept@, above@);
                proof {
                    maps::lemma_distinct(above@);
                    assert(m.remove_keys(n.dom()).dom().disjoint(n.dom()));
                    assert(merge::overlay(m.remove_keys(n.dom()), n) =~= self.rows());
                }
                let r: Vec<(Vec<u8>, Vec<u8>)> = merge::chained(kept, above);
                proof {
                    let split = front.len() as int;
                    assert(r@.take(split) =~= front);
                    assert(r@.skip(split) =~= back);
                    assert(self.stacked(r@, split));
                }
                r
            },
        }
    }

    fn size(&self) -> (r: usize) {
        let below: usize = self.state.size();
        proof {
            lemma_count(self.state.map(), self.cache.map());
        }
        below + self.novel_pending
    }
}

/// The changes that the store may not have yet, in a topic that was just opened.
pub open spec fn todo_of(t: Topic) -> Seq<Seq<u8>> {
    replay::from_offset(t.log(), replay::starts_at(recovery_name(), t.consumers(), t.log().next()))
}

/// The offset of the recovery cannot be stored, or, where it is new, not stored and then moved.
pub open spec fn cramped(t: Topic) -> bool {
    if t.consumers().contains_key(recovery_name()) {
        !t.store().offset_room(recovery_name())
    } else {
        !t.store().two_offsets_room(recovery_name())
    }
}

/// The recovery has committed less than the topic still has.
pub open spec fn lost(t: Topic) -> bool {
    t.consumers().contains_key(recovery_name()) && t.consumers()[recovery_name()].committed < t.log().earliest()
}

/// Both ways to say that rows rise or fall.
proof fn lemma_ways(s: Seq<(Vec<u8>, Vec<u8>)>)
    ensures
        maps::ascending(s) == merge::goes(IterationOrder::Ascending, s),
        maps::descending(s) == merge::goes(IterationOrder::Descending, s),
{
    if maps::ascending(s) {
        assert forall|i: int, j: int| 0 <= i < j < s.len() implies merge::comes_first(
            IterationOrder::Ascending,
            #[trigger] s[i].0@,
            #[trigger] s[j].0@,
        ) by {
            assert(lex::lt(s[i].0@, s[j].0@));
        }
    }
    if merge::goes(IterationOrder::Ascending, s) {
        assert forall|i: int, j: int| 0 <= i < j < s.len() implies lex::lt(#[trigger] s[i].0@, #[trigger] s[j].0@) by {
            assert(merge::comes_first(IterationOrder::Ascending, s[i].0@, s[j].0@));
        }
    }
    if maps::descending(s) {
        assert forall|i: int, j: int| 0 <= i < j < s.len() implies merge::comes_first(
            IterationOrder::Descending,
            #[trigger] s[i].0@,
            #[trigger] s[j].0@,
        ) by {
            assert(lex::lt(s[j].0@, s[i].0@));
        }
    }
    if merge::goes(IterationOrder::Descending, s) {
        assert forall|i: int, j: int| 0 <= i < j < s.len() implies lex::lt(#[trigger] s[j].0@, #[trigger] s[i].0@) by {
            assert(merge::comes_first(IterationOrder::Descending, s[i].0@, s[j].0@));
        }
    }
}

/// Without rows in memory the rows are those of the store.
proof fn lemma_uncovered(t: Table)
    requires
        t.cache.map() == Map::<Seq<u8>, Seq<u8>>::empty(),
    ensures
        t.rows() == t.state.map(),
{
    assert(t.rows() =~= t.state.map());
}

/// The rows are as many as those of the store and the new ones in memory.
proof fn lemma_count(m: Map<Seq<u8>, Seq<u8>>, over: Map<Seq<u8>, Seq<u8>>)
    requires
        m.dom().finite(),
        over.dom().finite(),
    ensures
        merge::overlay(m, over).dom().finite(),
        merge::overlay(m, over).len() == m.len() + novel(m, over),
        novel(m, over) <= over.len(),
{
    let d = over.dom().difference(m.dom());
    lemma_novel_bound(m, over);
    assert(merge::overlay(m, over).dom() =~= m.dom().union(d));
    assert(m.dom().disjoint(d));
    vstd::set_lib::lemma_set_disjoint_lens(m.dom(), d);
}

proof fn lemma_same_log(log: segment::SegmentLog)
    ensures
        log.same(log),
{
}

/// Moving a row from memory to the store.
proof fn lemma_moved(m: Map<Seq<u8>, Seq<u8>>, over: Map<Seq<u8>, Seq<u8>>, k: Seq<u8>, v: Seq<u8>)
    requires
        m.dom().finite(),
        over.dom().finite(),
        over.contains_key(k),
        over[k] == v,
    ensures
        novel(m.insert(k, v), over) == novel(m, over) - (if m.contains_key(k) {
            0int
        } else {
            1int
        }),
        novel(m, over) >= (if m.contains_key(k) {
            0int
        } else {
            1int
        }),
        merge::overlay(m.insert(k, v), over) == merge::overlay(m, over),
{
    let d = over.dom().difference(m.dom());
    let e = over.dom().difference(m.insert(k, v).dom());
    assert(e =~= d.remove(k));
    assert(merge::overlay(m.insert(k, v), over) =~= merge::overlay(m, over));
}

/// One more row in memory.
proof fn lemma_kept(m: Map<Seq<u8>, Seq<u8>>, over: Map<Seq<u8>, Seq<u8>>, k: Seq<u8>, v: Seq<u8>)
    requires
        m.dom().finite(),
        over.dom().finite(),
    ensures
        novel(m, over.insert(k, v)) == novel(m, over) + (if merge::overlay(m, over).contains_key(k) {
            0int
        } else {
            1int
        }),
{
    let d = over.dom().difference(m.dom());
    let e = over.insert(k, v).dom().difference(m.dom());
    if m.contains_key(k) {
        assert(e =~= d);
    } else if over.contains_key(k) {
        assert(e =~= d);
    } else {
        assert(e =~= d.insert(k));
    }
}

/// No more keys are new than there are.
proof fn lemma_novel_bound(m: Map<Seq<u8>, Seq<u8>>, over: Map<Seq<u8>, Seq<u8>>)
    requires
        over.dom().finite(),
    ensures
        0 <= novel(m, over) <= over.len(),
{
    vstd::set_lib::lemma_len_subset(over.dom().difference(m.dom()), over.dom());
}

} // verus!
