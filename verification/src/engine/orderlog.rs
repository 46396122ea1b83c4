//! An ordered key-value store in memory with an append-only log behind it.
//!
//! Reads are served from a skip list. Every write is appended to the log, from which the skip
//! list is filled again when the store is opened.

use crate::engine::log;
use crate::engine::log::Rec;
use crate::engine::log_store;
use crate::engine::log_store::LogStore;
use crate::engine::maps;
use crate::error::StorageError;
use crate::utils::key::Key;
use crate::utils::le;
use crate::utils::ratio::Ratio;
use vstd::prelude::*;

verus! {

pub const DEFAULT_INITIAL_CAPACITY: u64 = 1048576;

/// Sizes and thresholds of a store.
#[derive(Clone, Copy, Debug, PartialEq, Eq, Structural)]
pub struct OrderLogConfig {
    /// Bytes allocated up front; compaction never shrinks the image below this.
    pub initial_capacity: u64,
    /// Share of dead bytes from which a write compacts the log. Zero compacts after every
    /// write; one or more disables this.
    pub compaction_ratio: Ratio,
}

impl Default for OrderLogConfig {
    fn default() -> (c: Self)
        ensures
            c.initial_capacity == DEFAULT_INITIAL_CAPACITY,
            c.initial_capacity == 1048576,
            c.compaction_ratio == (Ratio { num: 1, den: 2 }),
    {
        OrderLogConfig { initial_capacity: DEFAULT_INITIAL_CAPACITY, compaction_ratio: Ratio { num: 1, den: 2 } }
    }
}

/// Counters of a store.
#[derive(Clone, Copy, Debug, PartialEq, Eq, Structural)]
pub struct OrderLogStats {
    /// Bytes of the image in use.
    pub data_size: u64,
    /// Bytes of records that hold no live value.
    pub dead_bytes: u64,
}

impl Default for OrderLogStats {
    fn default() -> (s: Self)
        ensures
            s.data_size == 0,
            s.dead_bytes == 0,
    {
        OrderLogStats { data_size: 0, dead_bytes: 0 }
    }
}

/// An ordered key-value store of byte strings.
pub struct OrderLog {
    store: LogStore,
    config: OrderLogConfig,
}

/// Whether the sizes of an entry fit a record.
pub open spec fn fits(key: Seq<u8>, value: Seq<u8>) -> bool {
    8 + key.len() + value.len() <= u32::MAX
}

/// The puts of entries, behind the records.
pub open spec fn puts(rs: Seq<Rec>, items: Seq<(Vec<u8>, Vec<u8>)>) -> Seq<Rec>
    decreases items.len(),
{
    if items.len() == 0 {
        rs
    } else {
        puts(rs, items.drop_last()).push(Rec::Put(items.last().0@, items.last().1@))
    }
}

/// An entry can be appended to the records.
pub open spec fn room_behind(rs: Seq<Rec>, item: (Vec<u8>, Vec<u8>)) -> bool {
    log::HEADER_SIZE + log::encode_all(rs).len() + 8 + item.0@.len() + item.1@.len() + 4 <= log::MAX_LOG
}

impl View for OrderLog {
    type V = Map<Seq<u8>, Seq<u8>>;

    open spec fn view(&self) -> Map<Seq<u8>, Seq<u8>> {
        log::kv_of(self.recs())
    }
}

impl OrderLog {
    /// The records of the log, oldest first.
    pub closed spec fn recs(&self) -> Seq<Rec> {
        self.store.recs()
    }

    pub closed spec fn wf(&self) -> bool {
        self.store.wf() && self.store.floor() == self.config.initial_capacity
    }

    pub closed spec fn config_view(&self) -> OrderLogConfig {
        self.config
    }

    /// The bytes to keep.
    pub closed spec fn image_view(&self) -> Seq<u8> {
        self.store.image_view()
    }

    /// The counters: bytes in use and dead bytes.
    pub open spec fn stats_view(&self) -> OrderLogStats {
        OrderLogStats {
            data_size: (log::HEADER_SIZE + log::encode_all(self.recs()).len()) as u64,
            dead_bytes: log::dead_of(self.recs()) as u64,
        }
    }

    /// Whether a record of `n` bytes can be appended.
    pub open spec fn has_room(&self, n: int) -> bool {
        log::HEADER_SIZE + log::encode_all(self.recs()).len() + n + 4 <= log::MAX_LOG
    }

    /// Whether an entry can be appended.
    pub open spec fn room_for(&self, key: Seq<u8>, value: Seq<u8>) -> bool {
        self.has_room(8 + key.len() as int + value.len())
    }

    /// The store is its log: the image can be read, and holds the same records. Live and dead
    /// bytes together are those in use.
    pub proof fn lemma_image(&self)
        requires
            self.wf(),
        ensures
            log::is_image(self.image_view(), log_store::MAGIC, self.recs()),
            log::valid_image(self.image_view(), log_store::MAGIC),
            log::image_recs(self.image_view()) == self.recs(),
            log::recs_ok(self.recs()),
            self@.dom().finite(),
            0 <= log::dead_of(self.recs()),
            log::dead_of(self.recs()) + log::live_total(log::index_of(self.recs())) + log::HEADER_SIZE
                == self.stats_view().data_size,
            self.stats_view().dead_bytes == log::dead_of(self.recs()),
    {
        self.store.lemma_image();
    }

    /// An empty store.
    pub fn create(config: OrderLogConfig) -> (r: Result<Self, StorageError>)
        ensures
            match r {
                Ok(t) => config.initial_capacity <= log::MAX_LOG && t.wf() && t.config_view() == config && t.recs()
                    == Seq::<Rec>::empty() && t@ == Map::<Seq<u8>, Seq<u8>>::empty() && t.image_view().len() == (
                if config.initial_capacity < 8 {
                    8
                } else {
                    config.initial_capacity as int
                }),
                Err(e) => config.initial_capacity > log::MAX_LOG && e == StorageError::StorageFull,
            },
    {
        if config.initial_capacity > log::MAX_LOG as u64 {
            return Err(StorageError::StorageFull);
        }
        Ok(OrderLog { store: LogStore::create(config.initial_capacity as usize), config })
    }

    /// Reads a store from its bytes.
    pub fn open(bytes: Vec<u8>, config: OrderLogConfig) -> (r: Result<Self, StorageError>)
        ensures
            match r {
                Ok(t) => {
                    &&& bytes@.len() + 4 <= log::MAX_LOG
                    &&& config.initial_capacity <= log::MAX_LOG
                    &&& log::valid_image(bytes@, log_store::MAGIC)
                    &&& t.wf()
                    &&& t.config_view() == config
                    &&& t.recs() == log::image_recs(bytes@)
                },
                Err(StorageError::StorageFull) => bytes@.len() + 4 > log::MAX_LOG || config.initial_capacity
                    > log::MAX_LOG,
                Err(e) => {
                    &&& e == StorageError::InvalidData
                    &&& !log::valid_image(bytes@, log_store::MAGIC)
                    &&& bytes@.len() + 4 <= log::MAX_LOG
                    &&& config.initial_capacity <= log::MAX_LOG
                },
            },
    {
        if bytes.len() > log::MAX_LOG - 4 || config.initial_capacity > log::MAX_LOG as u64 {
            return Err(StorageError::StorageFull);
        }
        match LogStore::open(bytes, config.initial_capacity as usize) {
            Ok(store) => Ok(OrderLog { store, config }),
            Err(e) => Err(e),
        }
    }

    /// The value of `key`, or `None` where there is none.
    pub fn get(&self, key: &Vec<u8>) -> (r: Option<&Vec<u8>>)
        requires
            self.wf(),
        ensures
            match r {
                Some(v) => self@.contains_key(key@) && v@ == self@[key@],
                None => !self@.contains_key(key@),
            },
    {
        self.store.get(key)
    }

    /// Whether `key` has a value.
    pub fn contains(&self, key: &Vec<u8>) -> (r: bool)
        requires
            self.wf(),
        ensures
            r == self@.contains_key(key@),
    {
        self.store.contains(key)
    }

    /// Compacts where the configured share of dead bytes is reached.
    fn maybe_compact(&mut self)
        requires
            old(self).wf(),
        ensures
            final(self).wf(),
            final(self).config == old(self).config,
            final(self).recs() == log::settled(old(self).config.compaction_ratio, old(self).recs()),
            final(self)@ == old(self)@,
    {
        if self.config.compaction_ratio.reached(self.store.dead_bytes(), self.store.data_size()) {
            self.store.compact_in_place();
        }
    }

    /// Inserts or overwrites an entry.
    pub fn put(&mut self, key: Vec<u8>, value: Vec<u8>) -> (r: Result<(), StorageError>)
        requires
            old(self).wf(),
            fits(key@, value@),
        ensures
            final(self).wf(),
            final(self).config_view() == old(self).config_view(),
            match r {
                Ok(_) => {
                    &&& old(self).room_for(key@, value@)
                    &&& final(self)@ == old(self)@.insert(key@, value@)
                    &&& final(self).recs() == log::settled(
                        old(self).config_view().compaction_ratio,
                        old(self).recs().push(Rec::Put(key@, value@)),
                    )
                },
                Err(e) => !old(self).room_for(key@, value@) && *final(self) == *old(self) && e
                    == StorageError::StorageFull,
            },
            // Room is refused only at the end of what a log can hold.
            r is Err ==> 4 + log::encode_all(old(self).recs()).len() + 8 + key@.len() + value@.len() + 4 > usize::MAX / 4,
    {
        match self.replace(key, value) {
            Ok(_) => Ok(()),
            Err(e) => Err(e),
        }
    }

    /// Inserts an entry where the key is not there. Gives whether it did.
    pub fn put_if_absent(&mut self, key: Vec<u8>, value: Vec<u8>) -> (r: Result<bool, StorageError>)
        requires
            old(self).wf(),
            fits(key@, value@),
        ensures
            final(self).wf(),
            final(self).config_view() == old(self).config_view(),
            match r {
                Ok(true) => {
                    &&& !old(self)@.contains_key(key@)
                    &&& old(self).room_for(key@, value@)
                    &&& final(self)@ == old(self)@.insert(key@, value@)
                    &&& final(self).recs() == log::settled(
                        old(self).config_view().compaction_ratio,
                        old(self).recs().push(Rec::Put(key@, value@)),
                    )
                },
                Ok(false) => old(self)@.contains_key(key@) && *final(self) == *old(self),
                Err(e) => !old(self)@.contains_key(key@) && !old(self).room_for(key@, value@) && *final(self)
                    == *old(self) && e == StorageError::StorageFull,
            },
    {
        if self.contains(&key) {
            return Ok(false);
        }
        match self.put(key, value) {
            Ok(_) => Ok(true),
            Err(e) => Err(e),
        }
    }

    /// Inserts or overwrites an entry and gives the value before.
    pub fn replace(&mut self, key: Vec<u8>, value: Vec<u8>) -> (r: Result<Option<Vec<u8>>, StorageError>)
        requires
            old(self).wf(),
            fits(key@, value@),
        ensures
            final(self).wf(),
            final(self).config_view() == old(self).config_view(),
            match r {
                Ok(prev) => {
                    &&& old(self).room_for(key@, value@)
                    &&& maps::holds(old(self)@, key@, prev)
                    &&& final(self)@ == old(self)@.insert(key@, value@)
                    &&& final(self).recs() == log::settled(
                        old(self).config_view().compaction_ratio,
                        old(self).recs().push(Rec::Put(key@, value@)),
                    )
                },
                Err(e) => !old(self).room_for(key@, value@) && *final(self) == *old(self) && e
                    == StorageError::StorageFull,
            },
    {
        if !self.store.room(8 + key.len() as u64 + value.len() as u64) {
            return Err(StorageError::StorageFull);
        }
        let prev: Option<Vec<u8>> = self.store.append(&key, value);
        proof {
            let rs = old(self).recs();
            assert(rs.push(Rec::Put(key@, value@)).drop_last() =~= rs);
        }
        self.maybe_compact();
        Ok(prev)
    }

    /// Deletes an entry. Gives whether it was there.
    pub fn delete(&mut self, key: &Vec<u8>) -> (r: Result<bool, StorageError>)
        requires
            old(self).wf(),
        ensures
            final(self).wf(),
            final(self).config_view() == old(self).config_view(),
            match r {
                Ok(true) => {
                    &&& old(self)@.contains_key(key@)
                    &&& old(self).has_room(8 + key@.len() as int)
                    &&& final(self)@ == old(self)@.remove(key@)
                    &&& final(self).recs() == log::settled(
                        old(self).config_view().compaction_ratio,
                        old(self).recs().push(Rec::Del(key@)),
                    )
                },
                Ok(false) => !old(self)@.contains_key(key@) && *final(self) == *old(self),
                Err(e) => old(self)@.contains_key(key@) && !old(self).has_room(8 + key@.len() as int) && *final(self)
                    == *old(self) && e == StorageError::StorageFull,
            },
            // Room is refused only at the end of what a log can hold.
            r is Err ==> 4 + log::encode_all(old(self).recs()).len() + 8 + key@.len() + 4 > usize::MAX / 4,
    {
        if !self.contains(key) {
            return Ok(false);
        }
        proof {
            self.store.lemma_key_fits(key@);
        }
        if !self.store.room(8 + key.len() as u64) {
            return Err(StorageError::StorageFull);
        }
        self.store.bury(key);
        proof {
            let rs = old(self).recs();
            assert(rs.push(Rec::Del(key@)).drop_last() =~= rs);
        }
        self.maybe_compact();
        Ok(true)
    }

    /// Replaces the value of `key` by what `f` makes of it; `None` stands for no entry on
    /// either side. At most one record is appended.
    pub fn update<F: FnOnce(Option<Vec<u8>>) -> Option<Vec<u8>>>(&mut self, key: &Vec<u8>, f: F) -> (r: Result<
        (),
        StorageError,
    >)
        requires
            old(self).wf(),
            forall|cur: Option<Vec<u8>>| #[trigger]
                maps::holds(old(self)@, key@, cur) ==> call_requires(f, (cur,)),
            forall|cur: Option<Vec<u8>>, out: Vec<u8>|
                maps::holds(old(self)@, key@, cur) && #[trigger] call_ensures(f, (cur,), Some(out)) ==> fits(
                    key@,
                    out@,
                ),
        ensures
            final(self).wf(),
            final(self).config_view() == old(self).config_view(),
            exists|cur: Option<Vec<u8>>, out: Option<Vec<u8>>| #[trigger]
                call_ensures(f, (cur,), out) && maps::holds(old(self)@, key@, cur) && update_done(
                    *old(self),
                    *final(self),
                    key@,
                    out,
                    r,
                ),
            // The value there was is handed over, and what comes back takes its place.
            r is Ok ==> exists|cur: Option<Vec<u8>>, out: Option<Vec<u8>>| #[trigger]
                call_ensures(f, (cur,), out) && (match cur {
                    Some(v) => old(self)@.contains_key(key@) && old(self)@[key@] == v@,
                    None => !old(self)@.contains_key(key@),
                }) && (match out {
                    Some(v) => final(self)@ == old(self)@.insert(key@, v@),
                    None => final(self)@ == old(self)@.remove(key@),
                }),
            r is Err ==> final(self)@ == old(self)@,
    {
        let cur: Option<Vec<u8>> = match self.get(key) {
            Some(v) => Some(v.duplicate()),
            None => None,
        };
        assert(maps::holds(self@, key@, cur));
        let there: bool = cur.is_some();
        let ghost seen = cur;
        let out: Option<Vec<u8>> = f(cur);
        assert(call_ensures(f, (seen,), out));
        let ghost given = out;
        match out {
            Some(v) => {
                let r: Result<(), StorageError> = self.put(key.duplicate(), v);
                assert(update_done(*old(self), *self, key@, given, r));
                r
            },
            None => {
                if there {
                    match self.delete(key) {
                        Ok(_) => Ok(()),
                        Err(e) => Err(e),
                    }
                } else {
                    Ok(())
                }
            },
        }
    }

    /// Puts entries one after the other, up to the first that finds no room.
    pub fn bulk_put(&mut self, items: &Vec<(Vec<u8>, Vec<u8>)>) -> (r: Result<(), StorageError>)
        requires
            old(self).wf(),
            forall|i: int| 0 <= i < items@.len() ==> fits((#[trigger] items@[i]).0@, items@[i].1@),
        ensures
            final(self).wf(),
            final(self).config_view() == old(self).config_view(),
            match r {
                Ok(_) => {
                    &&& final(self)@ == maps::put_all(old(self)@, items@)
                    &&& final(self).recs() == log::written(
                        old(self).config_view().compaction_ratio,
                        old(self).recs(),
                        items@,
                    )
                },
                Err(e) => e == StorageError::StorageFull && exists|n: int|
                    0 <= n < items@.len() && final(self)@ == maps::put_all(old(self)@, #[trigger] items@.take(n))
                        && final(self).recs() == log::written(
                        old(self).config_view().compaction_ratio,
                        old(self).recs(),
                        items@.take(n),
                    ) && !final(self).room_for(items@[n].0@, items@[n].1@),
            },
    {
        let mut i: usize = 0;
        assert(items@.take(0) =~= Seq::<(Vec<u8>, Vec<u8>)>::empty());
        while i < items.len()
            invariant
                0 <= i <= items@.len(),
                self.wf(),
                self.config == old(self).config,
                forall|j: int| 0 <= j < items@.len() ==> fits((#[trigger] items@[j]).0@, items@[j].1@),
                self@ == maps::put_all(old(self)@, items@.take(i as int)),
                self.recs() == log::written(self.config.compaction_ratio, old(self).recs(), items@.take(i as int)),
            decreases items@.len() - i,
        {
            assert(fits(items@[i as int].0@, items@[i as int].1@));
            match self.put(items[i].0.duplicate(), items[i].1.duplicate()) {
                Ok(_) => {},
                Err(e) => {
                    return Err(e);
                },
            }
            assert(items@.take(i + 1).drop_last() =~= items@.take(i as int));
            i = i + 1;
        }
        assert(items@.take(i as int) =~= items@);
        Ok(())
    }

    /// Puts entries one after the other and compacts at most once, at the end. Stops at the
    /// first entry that finds no room.
    pub fn bulk_put_sorted(&mut self, items: &Vec<(Vec<u8>, Vec<u8>)>) -> (r: Result<(), StorageError>)
        requires
            old(self).wf(),
            forall|i: int| 0 <= i < items@.len() ==> fits((#[trigger] items@[i]).0@, items@[i].1@),
        ensures
            final(self).wf(),
            final(self).config_view() == old(self).config_view(),
            match r {
                Ok(_) => {
                    &&& final(self)@ == maps::put_all(old(self)@, items@)
                    &&& final(self).recs() == log::settled(
                        old(self).config_view().compaction_ratio,
                        puts(old(self).recs(), items@),
                    )
                },
                Err(e) => e == StorageError::StorageFull && exists|n: int|
                    0 <= n < items@.len() && final(self)@ == maps::put_all(old(self)@, #[trigger] items@.take(n))
                        && !room_behind(puts(old(self).recs(), items@.take(n)), items@[n]),
            },
    {
        let mut i: usize = 0;
        let mut full: bool = false;
        assert(items@.take(0) =~= Seq::<(Vec<u8>, Vec<u8>)>::empty());
        while i < items.len() && !full
            invariant
                0 <= i <= items@.len(),
                full ==> i < items@.len(),
                self.wf(),
                self.config == old(self).config,
                forall|j: int| 0 <= j < items@.len() ==> fits((#[trigger] items@[j]).0@, items@[j].1@),
                self@ == maps::put_all(old(self)@, items@.take(i as int)),
                self.recs() == puts(old(self).recs(), items@.take(i as int)),
                full ==> !room_behind(puts(old(self).recs(), items@.take(i as int)), items@[i as int]),
            decreases items@.len() - i + (if full {
                0int
            } else {
                1int
            }),
        {
            let ghost n = i as int;
            let ghost a = self.recs();
            let ghost r = Rec::Put(items@[n].0@, items@[n].1@);
            proof {
                assert(fits(items@[n].0@, items@[n].1@));
                assert(items@.take(n + 1).drop_last() =~= items@.take(n));
                assert(a.push(r).drop_last() =~= a);
                log::lemma_encode_len(r);
            }
            if self.store.room(8 + items[i].0.len() as u64 + items[i].1.len() as u64) {
                let _ = self.store.append(&items[i].0, items[i].1.duplicate());
                i = i + 1;
            } else {
                full = true;
            }
        }
        self.maybe_compact();
        if full {
            return Err(StorageError::StorageFull);
        }
        assert(items@.take(i as int) =~= items@);
        Ok(())
    }

    /// Deletes entries one after the other, up to the first whose tombstone finds no room.
    /// Gives how many were there.
    pub fn bulk_delete(&mut self, keys: &Vec<Vec<u8>>) -> (r: Result<usize, StorageError>)
        requires
            old(self).wf(),
        ensures
            final(self).wf(),
            final(self).config_view() == old(self).config_view(),
            match r {
                Ok(n) => {
                    &&& final(self)@ == maps::without(old(self)@, keys@, keys@.len() as int)
                    &&& n == old(self)@.len() - final(self)@.len()
                    &&& final(self).recs() == log::buried(
                        old(self).config_view().compaction_ratio,
                        old(self).recs(),
                        keys@,
                    )
                },
                Err(e) => e == StorageError::StorageFull && exists|n: int|
                    0 <= n < keys@.len() && final(self)@ == maps::without(old(self)@, keys@, n)
                        && final(self)@.contains_key(#[trigger] keys@[n]@) && final(self).recs() == log::buried(
                        old(self).config_view().compaction_ratio,
                        old(self).recs(),
                        keys@.take(n),
                    ) && !final(self).has_room(8 + keys@[n]@.len() as int),
            },
    {
        let mut i: usize = 0;
        let mut n: usize = 0;
        proof {
            log::lemma_index(self.recs());
            assert(maps::without(self@, keys@, 0) =~= self@);
            assert(keys@.take(0) =~= Seq::<Vec<u8>>::empty());
        }
        while i < keys.len()
            invariant
                0 <= i <= keys@.len(),
                self.wf(),
                self.config == old(self).config,
                self@ == maps::without(old(self)@, keys@, i as int),
                self.recs() == log::buried(self.config.compaction_ratio, old(self).recs(), keys@.take(i as int)),
                n == old(self)@.len() - self@.len(),
                n <= i,
                self@.dom().finite(),
            decreases keys@.len() - i,
        {
            let ghost before = self@;
            match self.delete(&keys[i]) {
                Ok(there) => {
                    proof {
                        let k = keys@[i as int]@;
                        assert(keys@.take(i + 1).drop_last() =~= keys@.take(i as int));
                        assert(maps::without(old(self)@, keys@, i + 1) =~= before.remove(k)) by {
                            maps::lemma_among_next(keys@, i as int);
                        }
                        if !there {
                            assert(before.remove(k) =~= before);
                        }
                        assert(before.remove(k).dom() =~= before.dom().remove(k));
                    }
                    if there {
                        n = n + 1;
                    }
                },
                Err(e) => {
                    return Err(e);
                },
            }
            i = i + 1;
        }
        assert(keys@.take(i as int) =~= keys@);
        Ok(n)
    }

    /// Deletes entries one after the other and compacts at most once, at the end. Stops at the
    /// first whose tombstone finds no room. Gives how many were there.
    pub fn bulk_delete_sorted(&mut self, keys: &Vec<Vec<u8>>) -> (r: Result<usize, StorageError>)
        requires
            old(self).wf(),
        ensures
            final(self).wf(),
            final(self).config_view() == old(self).config_view(),
            match r {
                Ok(n) => {
                    &&& final(self)@ == maps::without(old(self)@, keys@, keys@.len() as int)
                    &&& n == old(self)@.len() - final(self)@.len()
                    &&& final(self).recs() == log::settled(
                        old(self).config_view().compaction_ratio,
                        dels(old(self).recs(), keys@),
                    )
                },
                Err(e) => e == StorageError::StorageFull && exists|n: int|
                    0 <= n < keys@.len() && final(self)@ == maps::without(old(self)@, keys@, n)
                        && final(self)@.contains_key(#[trigger] keys@[n]@) && log::kv_of(
                        dels(old(self).recs(), keys@.take(n)),
                    ) == final(self)@ && log::HEADER_SIZE + log::encode_all(
                        dels(old(self).recs(), keys@.take(n)),
                    ).len() + 8 + keys@[n]@.len() + 4 > log::MAX_LOG,
            },
    {
        let mut i: usize = 0;
        let mut n: usize = 0;
        let mut full: bool = false;
        proof {
            log::lemma_index(self.recs());
            assert(maps::without(self@, keys@, 0) =~= self@);
            assert(keys@.take(0) =~= Seq::<Vec<u8>>::empty());
        }
        while i < keys.len() && !full
            invariant
                0 <= i <= keys@.len(),
                full ==> i < keys@.len(),
                self.wf(),
                self.config == old(self).config,
                self@ == maps::without(old(self)@, keys@, i as int),
                self.recs() == dels(old(self).recs(), keys@.take(i as int)),
                n == old(self)@.len() - self@.len(),
                n <= i,
                self@.dom().finite(),
                full ==> self@.contains_key(keys@[i as int]@) && !self.has_room(8 + keys@[i as int]@.len() as int),
            decreases keys@.len() - i + (if full {
                0int
            } else {
                1int
            }),
        {
            let ghost before = self@;
            let ghost rs = self.recs();
            let ghost k = keys@[i as int]@;
            proof {
                assert(maps::without(old(self)@, keys@, i + 1) =~= before.remove(k)) by {
                    maps::lemma_among_next(keys@, i as int);
                }
                assert(before.remove(k).dom() =~= before.dom().remove(k));
                assert(keys@.take(i + 1).drop_last() =~= keys@.take(i as int));
                assert(rs.push(Rec::Del(k)).drop_last() =~= rs);
            }
            if self.contains(&keys[i]) {
                proof {
                    self.store.lemma_key_fits(k);
                }
                if self.store.room(8 + keys[i].len() as u64) {
                    self.store.bury(&keys[i]);
                    n = n + 1;
                    i = i + 1;
                } else {
                    full = true;
                }
            } else {
                assert(before.remove(k) =~= before);
                i = i + 1;
            }
        }
        self.maybe_compact();
        if full {
            return Err(StorageError::StorageFull);
        }
        assert(keys@.take(i as int) =~= keys@);
        Ok(n)
    }

    /// Drops all entries. The image keeps its length.
    pub fn clear(&mut self) -> (r: Result<(), StorageError>)
        requires
            old(self).wf(),
        ensures
            final(self).wf(),
            final(self).config_view() == old(self).config_view(),
            final(self).recs() == Seq::<Rec>::empty(),
            final(self)@ == Map::<Seq<u8>, Seq<u8>>::empty(),
            final(self).image_view().len() == old(self).image_view().len(),
            r is Ok,
    {
        self.store.clear();
        Ok(())
    }

    /// The live records alone are left, with room behind them down to the initial capacity.
    pub open spec fn repacked(&self, to: &Self) -> bool {
        &&& to.recs() == log::compacted(self.recs())
        &&& to.stats_view().dead_bytes == 0
        &&& to.image_view().len() == log_store::packed_len(to.recs(), self.config_view().initial_capacity as int)
    }

    /// Rewrites the log with its live records alone, in the order in which they stand, and
    /// gives back the room behind them down to the initial capacity.
    pub fn compact(&mut self) -> (r: Result<(), StorageError>)
        requires
            old(self).wf(),
        ensures
            final(self).wf(),
            final(self).config_view() == old(self).config_view(),
            final(self)@ == old(self)@,
            old(self).repacked(final(self)),
            r is Ok,
            // One put is left for each entry, and no more room than was asked for at first, or than they take.
            forall|i: int| 0 <= i < final(self).recs().len() ==> (#[trigger] final(self).recs()[i]) is Put,
            forall|i: int| 0 <= i < final(self).recs().len() ==> old(self).recs().contains(#[trigger] final(self).recs()[i]),
            forall|i: int, j: int|
                0 <= i < j < final(self).recs().len() ==> log::rec_key(#[trigger] final(self).recs()[i]) != log::rec_key(
                    #[trigger] final(self).recs()[j],
                ),
            final(self).image_view().len()
                == (if 4 + log::encode_all(final(self).recs()).len() + 4 < old(self).config_view().initial_capacity {
                old(self).config_view().initial_capacity as nat
            } else {
                4 + log::encode_all(final(self).recs()).len() + 4
            }),
    {
        proof {
            self.lemma_image();
            log::compaction_leaves_each_entry_once(self.recs());
        }
        self.store.compact_in_place();
        Ok(())
    }

    /// The keys in order.
    pub fn keys(&self) -> (r: Vec<Vec<u8>>)
        requires
            self.wf(),
        ensures
            maps::lists_keys(self@, r@),
            maps::rising(r@),
    {
        let all: Vec<(Vec<u8>, Vec<u8>)> = self.entries();
        maps::keys_of(all, Ghost(self@))
    }

    /// The values in the order of their keys.
    pub fn values(&self) -> (r: Vec<Vec<u8>>)
        requires
            self.wf(),
        ensures
            exists|keys: Seq<Vec<u8>>|
                maps::lists_keys(self@, keys) && maps::rising(keys) && #[trigger] maps::values_under(self@, keys, r@),
    {
        let all: Vec<(Vec<u8>, Vec<u8>)> = self.entries();
        maps::values_in_order(all, Ghost(self@))
    }

    /// The entries in key order.
    pub fn entries(&self) -> (r: Vec<(Vec<u8>, Vec<u8>)>)
        requires
            self.wf(),
        ensures
            maps::ascending(r@),
            maps::map_of(r@) == self@,
    {
        self.store.entries()
    }

    /// The entries in falling key order.
    pub fn entries_rev(&self) -> (r: Vec<(Vec<u8>, Vec<u8>)>)
        requires
            self.wf(),
        ensures
            maps::descending(r@),
            maps::map_of(r@) == self@,
    {
        self.store.entries_rev()
    }

    /// The entries with keys from `start` on and before `end`, in key order.
    pub fn range(&self, start: &Vec<u8>, end: &Vec<u8>) -> (r: Vec<(Vec<u8>, Vec<u8>)>)
        requires
            self.wf(),
        ensures
            maps::ascending(r@),
            maps::map_of(r@) == maps::between(self@, start@, Some(end@)),
    {
        self.store.range(start, end)
    }

    /// The entries with keys from `start` on and before `end`, in falling key order.
    pub fn range_rev(&self, start: &Vec<u8>, end: &Vec<u8>) -> (r: Vec<(Vec<u8>, Vec<u8>)>)
        requires
            self.wf(),
        ensures
            maps::descending(r@),
            maps::map_of(r@) == maps::between(self@, start@, Some(end@)),
    {
        self.store.range_rev(start, end)
    }

    /// The entry with the least key.
    pub fn first(&self) -> (r: Option<(Vec<u8>, Vec<u8>)>)
        requires
            self.wf(),
        ensures
            maps::is_first(self@, r),
    {
        self.store.first()
    }

    /// The entry with the greatest key.
    pub fn last(&self) -> (r: Option<(Vec<u8>, Vec<u8>)>)
        requires
            self.wf(),
        ensures
            maps::is_last(self@, r),
    {
        self.store.last()
    }

    /// The number of entries.
    pub fn size(&self) -> (r: usize)
        requires
            self.wf(),
        ensures
            r == self@.len(),
    {
        self.store.size()
    }

    pub fn is_empty(&self) -> (r: bool)
        requires
            self.wf(),
        ensures
            r == (self@.len() == 0),
    {
        self.size() == 0
    }

    /// The counters.
    pub fn stats(&self) -> (r: OrderLogStats)
        requires
            self.wf(),
        ensures
            r == self.stats_view(),
            r.data_size == 4 + log::encode_all(self.recs()).len(),
            r.dead_bytes == log::dead_of(self.recs()),
    {
        proof {
            self.lemma_image();
            log::lemma_dead_bound(self.recs());
        }
        OrderLogStats { data_size: self.store.data_size(), dead_bytes: self.store.dead_bytes() }
    }

    pub fn config(&self) -> (r: OrderLogConfig)
        ensures
            r == self.config_view(),
    {
        self.config
    }

    /// The bytes to keep; `open` reads them back.
    pub fn image(&self) -> (r: &Vec<u8>)
        ensures
            r@ == self.image_view(),
    {
        self.store.image()
    }

    /// The records of the log one after the other, dead ones too.
    pub fn consume_val(&self) -> (r: ConsumeValIter<'_>)
        requires
            self.wf(),
        ensures
            r.wf(),
            r.rest() == self.recs(),
    {
        proof {
            self.lemma_image();
        }
        ConsumeValIter { bytes: self.store.image(), cursor: log::HEADER_SIZE }
    }
}

/// The tombstones of the keys that are there, behind the records.
pub open spec fn dels(rs: Seq<Rec>, keys: Seq<Vec<u8>>) -> Seq<Rec>
    decreases keys.len(),
{
    if keys.len() == 0 {
        rs
    } else {
        let before = dels(rs, keys.drop_last());
        if log::kv_of(before).contains_key(keys.last()@) {
            before.push(Rec::Del(keys.last()@))
        } else {
            before
        }
    }
}

/// What an update leaves, where the closure gave `out`.
pub open spec fn update_done(
    before: OrderLog,
    after: OrderLog,
    key: Seq<u8>,
    out: Option<Vec<u8>>,
    r: Result<(), StorageError>,
) -> bool {
    match out {
        Some(v) => match r {
            Ok(_) => before.room_for(key, v@) && after@ == before@.insert(key, v@) && after.recs() == log::settled(
                before.config_view().compaction_ratio,
                before.recs().push(Rec::Put(key, v@)),
            ),
            Err(e) => !before.room_for(key, v@) && after == before && e == StorageError::StorageFull,
        },
        None => match r {
            Ok(_) => if before@.contains_key(key) {
                before.has_room(8 + key.len() as int) && after@ == before@.remove(key) && after.recs() == log::settled(
                    before.config_view().compaction_ratio,
                    before.recs().push(Rec::Del(key)),
                )
            } else {
                after == before
            },
            Err(e) => before@.contains_key(key) && !before.has_room(8 + key.len() as int) && after == before && e
                == StorageError::StorageFull,
        },
    }
}

/// Walks over the records of a log.
pub struct ConsumeValIter<'a> {
    bytes: &'a Vec<u8>,
    cursor: usize,
}

/// A record, with `None` for the value of a tombstone.
pub open spec fn is_record(e: (Vec<u8>, Option<Vec<u8>>), r: Rec) -> bool {
    match r {
        Rec::Put(k, v) => e.0@ == k && e.1 is Some && e.1->0@ == v,
        Rec::Del(k) => e.0@ == k && e.1 is None,
    }
}

impl<'a> ConsumeValIter<'a> {
    pub closed spec fn wf(&self) -> bool {
        log::parse(self.bytes@, self.cursor as int) is Some
    }

    /// The records that are still to come.
    pub closed spec fn rest(&self) -> Seq<Rec> {
        log::parse(self.bytes@, self.cursor as int)->0
    }

    /// The next record, or `None` behind the last one.
    pub fn next(&mut self) -> (r: Option<(Vec<u8>, Option<Vec<u8>>)>)
        requires
            old(self).wf(),
        ensures
            final(self).wf(),
            match r {
                Some(e) => old(self).rest().len() > 0 && is_record(e, old(self).rest()[0]) && final(self).rest()
                    == old(self).rest().skip(1),
                None => old(self).rest().len() == 0 && final(self).rest() == old(self).rest(),
            },
    {
        let at: usize = self.cursor;
        match le::read_u32_le(self.bytes, at) {
            None => None,
            Some(v) => {
                if v == log::SENTINEL {
                    return None;
                }
                match log::read_span(self.bytes, at) {
                    None => None,
                    Some(s) => {
                        let key: Vec<u8> = le::copy_range(self.bytes, s.key_start, s.key_end);
                        let value: Option<Vec<u8>> = if s.live {
                            Some(le::copy_range(self.bytes, s.value_start, s.value_end))
                        } else {
                            None
                        };
                        self.cursor = s.key_end;
                        proof {
                            let rest = log::parse(self.bytes@, s.key_end as int)->0;
                            let first = log::parse_one(self.bytes@, at as int)->Some_0.0;
                            assert((seq![first] + rest).skip(1) =~= rest);
                        }
                        Some((key, value))
                    },
                }
            },
        }
    }
}

} // verus!
