//! An ordered key-value store in memory with an append-only log behind it.
//!
//! Keys and values live in a skip list. The log behind it only serves to fill the skip list
//! again when the store is opened; compaction rewrites it in key order.

use crate::engine::log;
use crate::engine::log::Rec;
use crate::engine::log_store;
use crate::engine::log_store::LogStore;
use crate::engine::maps;
use crate::error::StorageError;
use crate::utils::key::Key;
use crate::utils::lex;
use crate::utils::ratio;
use crate::utils::ratio::Ratio;
use vstd::prelude::*;

verus! {

pub const DEFAULT_INITIAL_CAPACITY: u64 = 1048576;

/// Sizes and thresholds of a store.
#[derive(Clone, Copy, Debug, PartialEq, Eq, Structural)]
pub struct OrderLogConfig {
    /// Bytes allocated up front; compaction never shrinks the image below this.
    pub initial_capacity: u64,
    /// Share of dead bytes from which a write compacts the log. Zero compacts after every
    /// write; one or more disables this.
    pub compaction_ratio: Ratio,
}

impl Default for OrderLogConfig {
    fn default() -> (c: Self)
        ensures
            c.initial_capacity == DEFAULT_INITIAL_CAPACITY,
            c.initial_capacity == 1048576,
            c.compaction_ratio == (Ratio { num: 1, den: 2 }),
    {
        OrderLogConfig { initial_capacity: DEFAULT_INITIAL_CAPACITY, compaction_ratio: Ratio { num: 1, den: 2 } }
    }
}

/// Counters of a store.
#[derive(Clone, Copy, Debug, PartialEq, Eq, Structural)]
pub struct OrderLogStats {
    pub entries: usize,
    /// Bytes of the image in use.
    pub data_size: u64,
    /// Bytes of records that hold no live value.
    pub dead_bytes: u64,
}

impl Default for OrderLogStats {
    fn default() -> (s: Self)
        ensures
            s.entries == 0,
            s.data_size == 0,
            s.dead_bytes == 0,
    {
        OrderLogStats { entries: 0, data_size: 0, dead_bytes: 0 }
    }
}

/// An ordered key-value store of byte strings.
pub struct OrderLog {
    store: LogStore,
    config: OrderLogConfig,
}

/// What a write leaves of the records: one put for each live entry in key order, where the
/// configured share of dead bytes is reached, and else the records as they are.
pub open spec fn settles(config: OrderLogConfig, before: Seq<Rec>, after: Seq<Rec>) -> bool {
    if ratio::share_reached(
        config.compaction_ratio,
        log::dead_of(before),
        log::HEADER_SIZE + log::encode_all(before).len(),
    ) {
        log_store::in_key_order(after) && log::kv_of(after) == log::kv_of(before)
    } else {
        after == before
    }
}

/// The records after a write hold what they held. Take the bytes that they have beyond those of
/// records that hold each entry once and nothing else: where these are the share of the log that is
/// asked for, one record for each entry stays, in key order; otherwise all stay as they are.
pub proof fn dead_bytes_set_off_compaction(config: OrderLogConfig, before: Seq<Rec>, after: Seq<Rec>, once: Seq<Rec>)
    requires
        settles(config, before, after),
        forall|i: int| 0 <= i < once.len() ==> (#[trigger] once[i]) is Put,
        forall|i: int, j: int|
            0 <= i < j < once.len() ==> log::rec_key(#[trigger] once[i]) != log::rec_key(#[trigger] once[j]),
        log::kv_of(once) == log::kv_of(before),
    ensures
        log::kv_of(after) == log::kv_of(before),
        log::encode_all(once).len() <= log::encode_all(before).len(),
        if config.compaction_ratio.num < config.compaction_ratio.den && (log::encode_all(before).len() - log::encode_all(
            once,
        ).len()) * config.compaction_ratio.den >= config.compaction_ratio.num * (4 + log::encode_all(before).len()) {
            &&& log::encode_all(after).len() == log::encode_all(once).len()
            &&& forall|i: int| 0 <= i < after.len() ==> (#[trigger] after[i]) is Put
            &&& forall|i: int, j: int|
                0 <= i < j < after.len() ==> lex::lt(log::rec_key(#[trigger] after[i]), log::rec_key(#[trigger] after[j]))
        } else {
            after == before
        },
{
    log::dead_bytes_are_the_rest(before, once);
    if log_store::in_key_order(after) {
        assert forall|i: int, j: int| 0 <= i < j < after.len() implies log::rec_key(#[trigger] after[i])
            != log::rec_key(#[trigger] after[j]) && lex::lt(log::rec_key(after[i]), log::rec_key(after[j])) by {
            lex::lt_irrefl(log::rec_key(after[i]));
        }
        log::dead_bytes_are_the_rest(before, after);
    }
}

/// What puts, one after the other, leave of the records.
pub open spec fn written(
    config: OrderLogConfig,
    before: Seq<Rec>,
    items: Seq<(Vec<u8>, Vec<u8>)>,
    after: Seq<Rec>,
) -> bool
    decreases items.len(),
{
    if items.len() == 0 {
        after == before
    } else {
        exists|mid: Seq<Rec>|
            written(config, before, items.drop_last(), mid) && #[trigger] settles(
                config,
                mid.push(Rec::Put(items.last().0@, items.last().1@)),
                after,
            )
    }
}

/// What deletes, one after the other, leave of the records.
pub open spec fn buried(config: OrderLogConfig, before: Seq<Rec>, keys: Seq<Vec<u8>>, after: Seq<Rec>) -> bool
    decreases keys.len(),
{
    if keys.len() == 0 {
        after == before
    } else {
        exists|mid: Seq<Rec>|
            buried(config, before, keys.drop_last(), mid) && #[trigger] buries(config, mid, keys.last()@, after)
    }
}

/// What a delete leaves of the records.
pub open spec fn buries(config: OrderLogConfig, before: Seq<Rec>, key: Seq<u8>, after: Seq<Rec>) -> bool {
    if log::kv_of(before).contains_key(key) {
        settles(config, before.push(Rec::Del(key)), after)
    } else {
        after == before
    }
}

/// Whether the sizes of an entry fit a record. One without key and value could not be told from
/// the blank end of the file.
pub open spec fn fits(key: Seq<u8>, value: Seq<u8>) -> bool {
    &&& 8 + key.len() + value.len() <= u32::MAX
    &&& key.len() + value.len() > 0
}

impl View for OrderLog {
    type V = Map<Seq<u8>, Seq<u8>>;

    open spec fn view(&self) -> Map<Seq<u8>, Seq<u8>> {
        log::kv_of(self.recs())
    }
}

impl OrderLog {
    /// The records of the log, oldest first.
    pub closed spec fn recs(&self) -> Seq<Rec> {
        self.store.recs()
    }

    pub closed spec fn wf(&self) -> bool {
        &&& self.store.wf()
        &&& self.store.floor() == self.config.initial_capacity
        &&& log::named(self.store.recs())
    }

    pub closed spec fn config_view(&self) -> OrderLogConfig {
        self.config
    }

    /// The bytes to keep.
    pub closed spec fn image_view(&self) -> Seq<u8> {
        self.store.image_view()
    }

    /// The counters: entries, bytes in use and dead bytes.
    pub open spec fn stats_view(&self) -> OrderLogStats {
        OrderLogStats {
            entries: self@.len() as usize,
            data_size: (log::HEADER_SIZE + log::encode_all(self.recs()).len()) as u64,
            dead_bytes: log::dead_of(self.recs()) as u64,
        }
    }

    /// Whether a record of `n` bytes can be appended.
    pub open spec fn has_room(&self, n: int) -> bool {
        log::HEADER_SIZE + log::encode_all(self.recs()).len() + n + 4 <= log::MAX_LOG
    }

    /// Whether an entry can be appended.
    pub open spec fn room_for(&self, key: Seq<u8>, value: Seq<u8>) -> bool {
        self.has_room(8 + key.len() as int + value.len())
    }

    /// The store is its log: the image can be read, and holds the same records. Live and dead
    /// bytes together are those in use.
    pub proof fn lemma_image(&self)
        requires
            self.wf(),
        ensures
            log::is_image(self.image_view(), log_store::MAGIC, self.recs()),
            log::valid_image(self.image_view(), log_store::MAGIC),
            log::image_recs(self.image_view()) == self.recs(),
            log::ended(self.image_view()) == self.image_view(),
            log::recs_ok(self.recs()),
            self@.dom().finite(),
            0 <= log::dead_of(self.recs()),
            log::dead_of(self.recs()) + log::live_total(log::index_of(self.recs())) + log::HEADER_SIZE
                == self.stats_view().data_size,
            self.stats_view().dead_bytes == log::dead_of(self.recs()),
    {
        self.store.lemma_image();
        log::lemma_image_ended(self.image_view(), log_store::MAGIC, self.recs());
    }

    /// An empty store.
    pub fn create(config: OrderLogConfig) -> (r: Result<Self, StorageError>)
        ensures
            match r {
                Ok(t) => config.initial_capacity <= log::MAX_LOG && t.wf() && t.config_view() == config && t.recs()
                    == Seq::<Rec>::empty() && t@ == Map::<Seq<u8>, Seq<u8>>::empty() && t.image_view().len() == (
                if config.initial_capacity < 8 {
                    8
                } else {
                    config.initial_capacity as int
                }),
                Err(e) => config.initial_capacity > log::MAX_LOG && e == StorageError::StorageFull,
            },
    {
        if config.initial_capacity > log::MAX_LOG as u64 {
            return Err(StorageError::StorageFull);
        }
        Ok(OrderLog { store: LogStore::create(config.initial_capacity as usize), config })
    }

    /// Reads a store from its bytes. The records end at a sentinel, where the bytes are blank, or at
    /// one that is cut off before its key size.
    pub fn open(bytes: Vec<u8>, config: OrderLogConfig) -> (r: Result<Self, StorageError>)
        ensures
            match r {
                Ok(t) => {
                    &&& bytes@.len() + 4 <= log::MAX_LOG
                    &&& config.initial_capacity <= log::MAX_LOG
                    &&& log::valid_image(log::ended(bytes@), log_store::MAGIC)
                    &&& t.wf()
                    &&& t.config_view() == config
                    &&& t.recs() == log::image_recs(log::ended(bytes@))
                },
                Err(StorageError::StorageFull) => bytes@.len() + 4 > log::MAX_LOG || config.initial_capacity
                    > log::MAX_LOG,
                Err(e) => {
                    &&& e == StorageError::InvalidData
                    &&& !log::valid_image(log::ended(bytes@), log_store::MAGIC)
                    &&& bytes@.len() + 4 <= log::MAX_LOG
                    &&& config.initial_capacity <= log::MAX_LOG
                },
            },
    {
        if bytes.len() > log::MAX_LOG - 4 || config.initial_capacity > log::MAX_LOG as u64 {
            return Err(StorageError::StorageFull);
        }
        proof {
            log::lemma_ended(bytes@);
        }
        let whole: Vec<u8> = log::end_records(bytes);
        match LogStore::open(whole, config.initial_capacity as usize) {
            Ok(store) => Ok(OrderLog { store, config }),
            Err(e) => Err(e),
        }
    }

    /// The value of `key`, or `None` where there is none.
    pub fn get(&self, key: &Vec<u8>) -> (r: Option<Vec<u8>>)
        requires
            self.wf(),
        ensures
            maps::holds(self@, key@, r),
    {
        match self.store.get(key) {
            Some(v) => Some(v.duplicate()),
            None => None,
        }
    }

    /// Whether `key` has a value.
    pub fn contains(&self, key: &Vec<u8>) -> (r: bool)
        requires
            self.wf(),
        ensures
            r == self@.contains_key(key@),
    {
        self.store.contains(key)
    }

    /// Compacts where the configured share of dead bytes is reached.
    fn maybe_compact(&mut self)
        requires
            old(self).wf(),
        ensures
            final(self).wf(),
            final(self).config == old(self).config,
            settles(
                        old(self).config,
                        old(self).recs(),
                        final(self).recs(),
                    ),
            final(self)@ == old(self)@,
    {
        if self.config.compaction_ratio.reached(self.store.dead_bytes(), self.store.data_size()) {
            self.store.compact_by_key();
            proof {
                log_store::lemma_order_named(old(self).recs(), self.recs());
            }
        }
    }

    /// Inserts or overwrites an entry.
    pub fn put(&mut self, key: Vec<u8>, value: Vec<u8>) -> (r: Result<(), StorageError>)
        requires
            old(self).wf(),
            fits(key@, value@),
        ensures
            final(self).wf(),
            final(self).config_view() == old(self).config_view(),
            match r {
                Ok(_) => {
                    &&& old(self).room_for(key@, value@)
                    &&& final(self)@ == old(self)@.insert(key@, value@)
                    &&& settles(
                        old(self).config_view(),
                        old(self).recs().push(Rec::Put(key@, value@)),
                        final(self).recs(),
                    )
                },
                Err(e) => !old(self).room_for(key@, value@) && *final(self) == *old(self) && e
                    == StorageError::StorageFull,
            },
            // Room is refused only at the end of what a log can hold.
            r is Err ==> 4 + log::encode_all(old(self).recs()).len() + 8 + key@.len() + value@.len() + 4 > usize::MAX / 4,
    {
        if !self.store.room(8 + key.len() as u64 + value.len() as u64) {
            return Err(StorageError::StorageFull);
        }
        let _ = self.store.append(&key, value);
        proof {
            let rs = old(self).recs();
            assert(rs.push(Rec::Put(key@, value@)).drop_last() =~= rs);
        }
        self.maybe_compact();
        Ok(())
    }

    /// Deletes an entry. Gives whether it was there.
    pub fn delete(&mut self, key: &Vec<u8>) -> (r: Result<bool, StorageError>)
        requires
            old(self).wf(),
        ensures
            final(self).wf(),
            final(self).config_view() == old(self).config_view(),
            match r {
                Ok(true) => {
                    &&& old(self)@.contains_key(key@)
                    &&& old(self).has_room(8 + key@.len() as int)
                    &&& final(self)@ == old(self)@.remove(key@)
                    &&& settles(
                        old(self).config_view(),
                        old(self).recs().push(Rec::Del(key@)),
                        final(self).recs(),
                    )
                },
                Ok(false) => !old(self)@.contains_key(key@) && *final(self) == *old(self),
                Err(e) => old(self)@.contains_key(key@) && !old(self).has_room(8 + key@.len() as int) && *final(self)
                    == *old(self) && e == StorageError::StorageFull,
            },
            // Room is refused only at the end of what a log can hold.
            r is Err ==> 4 + log::encode_all(old(self).recs()).len() + 8 + key@.len() + 4 > usize::MAX / 4,
    {
        if !self.contains(key) {
            return Ok(false);
        }
        proof {
            self.store.lemma_key_fits(key@);
        }
        if !self.store.room(8 + key.len() as u64) {
            return Err(StorageError::StorageFull);
        }
        self.store.bury(key);
        proof {
            let rs = old(self).recs();
            assert(rs.push(Rec::Del(key@)).drop_last() =~= rs);
        }
        self.maybe_compact();
        Ok(true)
    }

    /// Replaces the value of `key` by what `f` makes of it; `None` stands for no entry on
    /// either side. At most one record is appended.
    pub fn update<F: FnOnce(Option<Vec<u8>>) -> Option<Vec<u8>>>(&mut self, key: &Vec<u8>, f: F) -> (r: Result<
        (),
        StorageError,
    >)
        requires
            old(self).wf(),
            forall|cur: Option<Vec<u8>>| #[trigger]
                maps::holds(old(self)@, key@, cur) ==> call_requires(f, (cur,)),
            forall|cur: Option<Vec<u8>>, out: Vec<u8>|
                maps::holds(old(self)@, key@, cur) && #[trigger] call_ensures(f, (cur,), Some(out)) ==> fits(
                    key@,
                    out@,
                ),
        ensures
            final(self).wf(),
            final(self).config_view() == old(self).config_view(),
            exists|cur: Option<Vec<u8>>, out: Option<Vec<u8>>| #[trigger]
                call_ensures(f, (cur,), out) && maps::holds(old(self)@, key@, cur) && update_done(
                    *old(self),
                    *final(self),
                    key@,
                    out,
                    r,
                ),
            // The value there was is handed over, and what comes back takes its place.
            r is Ok ==> exists|cur: Option<Vec<u8>>, out: Option<Vec<u8>>| #[trigger]
                call_ensures(f, (cur,), out) && (match cur {
                    Some(v) => old(self)@.contains_key(key@) && old(self)@[key@] == v@,
                    None => !old(self)@.contains_key(key@),
                }) && (match out {
                    Some(v) => final(self)@ == old(self)@.insert(key@, v@),
                    None => final(self)@ == old(self)@.remove(key@),
                }),
            r is Err ==> final(self)@ == old(self)@,
    {
        let cur: Option<Vec<u8>> = self.get(key);
        assert(maps::holds(self@, key@, cur));
        let there: bool = cur.is_some();
        let ghost seen = cur;
        let out: Option<Vec<u8>> = f(cur);
        assert(call_ensures(f, (seen,), out));
        let ghost given = out;
        match out {
            Some(v) => {
                let r: Result<(), StorageError> = self.put(key.duplicate(), v);
                assert(update_done(*old(self), *self, key@, given, r));
                r
            },
            None => {
                if there {
                    match self.delete(key) {
                        Ok(_) => Ok(()),
                        Err(e) => Err(e),
                    }
                } else {
                    Ok(())
                }
            },
        }
    }

    /// Drops all entries. The image keeps its length.
    pub fn clear(&mut self) -> (r: Result<(), StorageError>)
        requires
            old(self).wf(),
        ensures
            final(self).wf(),
            final(self).config_view() == old(self).config_view(),
            final(self).recs() == Seq::<Rec>::empty(),
            final(self)@ == Map::<Seq<u8>, Seq<u8>>::empty(),
            final(self).image_view().len() == old(self).image_view().len(),
            r is Ok,
    {
        self.store.clear();
        Ok(())
    }

    /// One record is left for each live entry, in key order. The image is no shorter than the store
    /// is created with.
    pub open spec fn repacked(&self, to: &Self) -> bool {
        &&& to.image_view().len() >= self.config_view().initial_capacity
        &&& log_store::in_key_order(to.recs())
        &&& to.stats_view().dead_bytes == 0
        &&& to.stats_view().data_size <= self.stats_view().data_size
    }

    /// Rewrites the log with one record for each live entry, in key order.
    pub fn compact(&mut self) -> (r: Result<(), StorageError>)
        requires
            old(self).wf(),
        ensures
            final(self).wf(),
            final(self).config_view() == old(self).config_view(),
            final(self)@ == old(self)@,
            old(self).repacked(final(self)),
            r is Ok,
    {
        proof {
            self.store.lemma_image();
        }
        self.store.compact_by_key();
        proof {
            self.store.lemma_image();
            log_store::lemma_order_named(old(self).recs(), self.recs());
        }
        Ok(())
    }

    /// Bytes in use.
    pub fn data_size(&self) -> (r: u64)
        requires
            self.wf(),
        ensures
            r == self.stats_view().data_size,
    {
        self.store.data_size()
    }

    /// Bytes of records that hold no live value.
    pub fn dead_bytes(&self) -> (r: u64)
        requires
            self.wf(),
        ensures
            r == self.stats_view().dead_bytes,
    {
        self.store.dead_bytes()
    }

    /// The keys in order.
    pub fn keys(&self) -> (r: Vec<Vec<u8>>)
        requires
            self.wf(),
        ensures
            maps::lists_keys(self@, r@),
            maps::rising(r@),
    {
        let all: Vec<(Vec<u8>, Vec<u8>)> = self.entries();
        maps::keys_of(all, Ghost(self@))
    }

    /// The values in the order of their keys.
    pub fn values(&self) -> (r: Vec<Vec<u8>>)
        requires
            self.wf(),
        ensures
            exists|keys: Seq<Vec<u8>>|
                maps::lists_keys(self@, keys) && maps::rising(keys) && #[trigger] maps::values_under(self@, keys, r@),
    {
        let all: Vec<(Vec<u8>, Vec<u8>)> = self.entries();
        maps::values_in_order(all, Ghost(self@))
    }

    /// The entries in key order.
    pub fn entries(&self) -> (r: Vec<(Vec<u8>, Vec<u8>)>)
        requires
            self.wf(),
        ensures
            maps::ascending(r@),
            maps::map_of(r@) == self@,
    {
        self.store.entries()
    }

    /// The entries with keys from `start` on and before `end`, in key order.
    pub fn range(&self, start: &Vec<u8>, end: &Vec<u8>) -> (r: Vec<(Vec<u8>, Vec<u8>)>)
        requires
            self.wf(),
        ensures
            maps::ascending(r@),
            maps::map_of(r@) == maps::between(self@, start@, Some(end@)),
    {
        self.store.range(start, end)
    }

    /// The entry with the least key.
    pub fn first(&self) -> (r: Option<(Vec<u8>, Vec<u8>)>)
        requires
            self.wf(),
        ensures
            maps::is_first(self@, r),
    {
        self.store.first()
    }

    /// The entry with the greatest key.
    pub fn last(&self) -> (r: Option<(Vec<u8>, Vec<u8>)>)
        requires
            self.wf(),
        ensures
            maps::is_last(self@, r),
    {
        self.store.last()
    }

    /// The number of entries.
    pub fn size(&self) -> (r: usize)
        requires
            self.wf(),
        ensures
            r == self@.len(),
    {
        self.store.size()
    }

    pub fn is_empty(&self) -> (r: bool)
        requires
            self.wf(),
        ensures
            r == (self@.len() == 0),
    {
        self.size() == 0
    }

    /// The counters.
    pub fn stats(&self) -> (r: OrderLogStats)
        requires
            self.wf(),
        ensures
            r == self.stats_view(),
            r.entries == self@.len(),
            r.data_size == 4 + log::encode_all(self.recs()).len(),
            r.dead_bytes == log::dead_of(self.recs()),
    {
        proof {
            self.lemma_image();
            log::lemma_dead_bound(self.recs());
        }
        OrderLogStats { entries: self.size(), data_size: self.store.data_size(), dead_bytes: self.store.dead_bytes() }
    }

    pub fn config(&self) -> (r: OrderLogConfig)
        ensures
            r == self.config_view(),
    {
        self.config
    }

    /// The bytes to keep; `open` reads them back.
    pub fn image(&self) -> (r: &Vec<u8>)
        ensures
            r@ == self.image_view(),
    {
        self.store.image()
    }

}

/// What an update leaves, where the closure gave `out`.
pub open spec fn update_done(
    before: OrderLog,
    after: OrderLog,
    key: Seq<u8>,
    out: Option<Vec<u8>>,
    r: Result<(), StorageError>,
) -> bool {
    match out {
        Some(v) => match r {
            Ok(_) => before.room_for(key, v@) && after@ == before@.insert(key, v@) && settles(
                        before.config_view(),
                        before.recs().push(Rec::Put(key, v@)),
                        after.recs(),
                    ),
            Err(e) => !before.room_for(key, v@) && after == before && e == StorageError::StorageFull,
        },
        None => match r {
            Ok(_) => if before@.contains_key(key) {
                before.has_room(8 + key.len() as int) && after@ == before@.remove(key) && settles(
                        before.config_view(),
                        before.recs().push(Rec::Del(key)),
                        after.recs(),
                    )
            } else {
                after == before
            },
            Err(e) => before@.contains_key(key) && !before.has_room(8 + key.len() as int) && after == before && e
                == StorageError::StorageFull,
        },
    }
}

} // verus!
