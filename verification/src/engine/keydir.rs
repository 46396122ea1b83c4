//! A key-value store on an append-only log with a hash index in memory.
//!
//! The index maps each key to the record that holds its value. Every write appends to the
//! log; overwritten and deleted records stay behind as dead bytes until the log is compacted.

use crate::engine::index;
use crate::engine::index::EntryMeta;
use crate::engine::index::HashIndex;
use crate::engine::log;
use crate::engine::log_store;
use crate::engine::skiplist;
use crate::engine::log::Log;
use crate::engine::log::Rec;
use crate::engine::log::Span;
use crate::engine::maps;
use crate::error::StorageError;
use crate::utils::le;
use crate::utils::ratio::Ratio;
use vstd::prelude::*;

verus! {

/// First four bytes of an image, `KIRD`.
pub const MAGIC: u32 = 0x4452494B;

pub const DEFAULT_INITIAL_CAPACITY: u64 = 1048576;

/// Sizes and thresholds of a store.
#[derive(Clone, Copy, Debug, PartialEq, Eq, Structural)]
pub struct KeyDirConfig {
    /// Bytes allocated up front; compaction never shrinks the image below this.
    pub initial_capacity: u64,
    /// Share of dead bytes from which a write compacts the log. Zero compacts after every
    /// write; one or more disables this.
    pub compaction_ratio: Ratio,
}

/// The settings of a store that names none.
pub open spec fn usual() -> KeyDirConfig {
    KeyDirConfig { initial_capacity: DEFAULT_INITIAL_CAPACITY, compaction_ratio: Ratio { num: 1, den: 2 } }
}

impl Default for KeyDirConfig {
    fn default() -> (c: Self)
        ensures
            c == usual(),
            c.initial_capacity == 1048576,
            c.compaction_ratio.num == 1,
            c.compaction_ratio.den == 2,
    {
        KeyDirConfig { initial_capacity: DEFAULT_INITIAL_CAPACITY, compaction_ratio: Ratio { num: 1, den: 2 } }
    }
}

/// Counters of a store.
#[derive(Clone, Copy, Debug, PartialEq, Eq, Structural)]
pub struct KeyDirStats {
    /// Bytes of the image in use.
    pub data_size: u64,
    /// Bytes of records that hold no live value.
    pub dead_bytes: u64,
}

impl Default for KeyDirStats {
    fn default() -> (s: Self)
        ensures
            s.data_size == 0,
            s.dead_bytes == 0,
    {
        KeyDirStats { data_size: 0, dead_bytes: 0 }
    }
}

/// A key-value store of byte strings.
pub struct KeyDir {
    index: HashIndex,
    log: Log,
    config: KeyDirConfig,
    dead_bytes: u64,
}

/// The hash index points where the log has its live records.
pub open spec fn index_matches(m: Map<Seq<u8>, EntryMeta>, rs: Seq<Rec>) -> bool {
    let want = log::index_of(rs);
    &&& m.dom() == want.dom()
    &&& forall|k: Seq<u8>| #[trigger]
        want.contains_key(k) ==> m[k].offset == want[k].0 && m[k].record_size == want[k].1
}

/// Whether the sizes of an entry fit a record.
pub open spec fn fits(key: Seq<u8>, value: Seq<u8>) -> bool {
    8 + key.len() + value.len() <= u32::MAX
}

impl View for KeyDir {
    type V = Map<Seq<u8>, Seq<u8>>;

    open spec fn view(&self) -> Map<Seq<u8>, Seq<u8>> {
        log::kv_of(self.recs())
    }
}

impl KeyDir {
    /// The records of the log, oldest first.
    pub closed spec fn recs(&self) -> Seq<Rec> {
        self.log.recs()
    }

    pub closed spec fn wf(&self) -> bool {
        &&& self.log.wf(MAGIC)
        &&& index_matches(self.index@, self.recs())
        &&& self.dead_bytes == log::dead_of(self.recs())
        &&& self.config.initial_capacity <= log::MAX_LOG
    }

    pub closed spec fn config_view(&self) -> KeyDirConfig {
        self.config
    }

    /// The bytes to keep.
    pub closed spec fn image_view(&self) -> Seq<u8> {
        self.log.image_view()
    }

    /// The counters: bytes in use and dead bytes.
    pub open spec fn stats_view(&self) -> KeyDirStats {
        KeyDirStats {
            data_size: (log::HEADER_SIZE + log::encode_all(self.recs()).len()) as u64,
            dead_bytes: log::dead_of(self.recs()) as u64,
        }
    }

    /// Whether a record of `n` bytes can be appended.
    pub open spec fn has_room(&self, n: int) -> bool {
        log::HEADER_SIZE + log::encode_all(self.recs()).len() + n + 4 <= log::MAX_LOG
    }

    /// Whether an entry can be appended.
    pub open spec fn room_for(&self, key: Seq<u8>, value: Seq<u8>) -> bool {
        self.has_room(8 + key.len() as int + value.len())
    }

    /// The store is the log: its image can be read, and holds the same records. Live and dead
    /// bytes together are those in use.
    pub proof fn lemma_image(&self)
        requires
            self.wf(),
        ensures
            log::is_image(self.image_view(), MAGIC, self.recs()),
            log::valid_image(self.image_view(), MAGIC),
            log::image_recs(self.image_view()) == self.recs(),
            log::recs_ok(self.recs()),
            self@.dom().finite(),
            0 <= log::dead_of(self.recs()),
            log::dead_of(self.recs()) + log::live_total(log::index_of(self.recs())) + log::HEADER_SIZE
                == self.stats_view().data_size,
            self.stats_view().dead_bytes == log::dead_of(self.recs()),
    {
        self.log.lemma_wf(MAGIC);
        log::lemma_image(self.image_view(), MAGIC, self.recs());
        log::lemma_index(self.recs());
        log::lemma_dead_bound(self.recs());
    }

    /// A list of the entries is no longer than a skip list can be.
    pub proof fn lemma_listed(&self, items: Seq<(Vec<u8>, Vec<u8>)>)
        requires
            self.wf(),
            maps::lists_entries(self@, items),
        ensures
            items.len() <= skiplist::MAX_NODES,
    {
        self.log.lemma_wf(MAGIC);
        log_store::lemma_entries_fit(self.recs());
        maps::lemma_map_of(items);
    }

    /// An empty store.
    pub fn create(config: KeyDirConfig) -> (r: Result<Self, StorageError>)
        ensures
            match r {
                Ok(t) => config.initial_capacity <= log::MAX_LOG && t.wf() && t.config_view() == config && t.recs()
                    == Seq::<Rec>::empty() && t@ == Map::<Seq<u8>, Seq<u8>>::empty() && t.image_view().len() == (
                if config.initial_capacity < 8 {
                    8
                } else {
                    config.initial_capacity as int
                }),
                Err(e) => config.initial_capacity > log::MAX_LOG && e == StorageError::StorageFull,
            },
    {
        if config.initial_capacity > log::MAX_LOG as u64 {
            return Err(StorageError::StorageFull);
        }
        let log: Log = Log::create(MAGIC, config.initial_capacity as usize);
        let index: HashIndex = HashIndex::new();
        assert(index@.dom() =~= log::index_of(Seq::<Rec>::empty()).dom());
        Ok(KeyDir { index, log, config, dead_bytes: 0 })
    }

    /// Reads a store from its bytes.
    pub fn open(bytes: Vec<u8>, config: KeyDirConfig) -> (r: Result<Self, StorageError>)
        ensures
            match r {
                Ok(t) => {
                    &&& bytes@.len() + 4 <= log::MAX_LOG
                    &&& config.initial_capacity <= log::MAX_LOG
                    &&& log::valid_image(bytes@, MAGIC)
                    &&& t.wf()
                    &&& t.config_view() == config
                    &&& t.recs() == log::image_recs(bytes@)
                },
                Err(StorageError::StorageFull) => bytes@.len() + 4 > log::MAX_LOG || config.initial_capacity
                    > log::MAX_LOG,
                Err(e) => {
                    &&& e == StorageError::InvalidData
                    &&& !log::valid_image(bytes@, MAGIC)
                    &&& bytes@.len() + 4 <= log::MAX_LOG
                    &&& config.initial_capacity <= log::MAX_LOG
                },
            },
    {
        if bytes.len() > log::MAX_LOG - 4 || config.initial_capacity > log::MAX_LOG as u64 {
            return Err(StorageError::StorageFull);
        }
        match Log::open(bytes, MAGIC) {
            Err(e) => Err(e),
            Ok(log) => {
                let mut t: KeyDir = KeyDir { index: HashIndex::new(), log, config, dead_bytes: 0 };
                t.rebuild_index();
                Ok(t)
            },
        }
    }

    /// Fills the index from the log, and counts the dead bytes on the way.
    fn rebuild_index(&mut self)
        requires
            old(self).log.wf(MAGIC),
            old(self).index@ == index::no_entries(),
            old(self).dead_bytes == 0,
            old(self).config.initial_capacity <= log::MAX_LOG,
        ensures
            final(self).wf(),
            final(self).config == old(self).config,
            final(self).recs() == old(self).recs(),
    {
        let ghost rs = self.log.recs();
        let ghost mut i: int = 0;
        let mut at: usize = log::HEADER_SIZE;
        let end: u64 = self.log.size(Ghost(MAGIC));
        proof {
            self.log.lemma_wf(MAGIC);
            assert(rs.take(0) =~= Seq::<Rec>::empty());
            assert(rs.take(rs.len() as int) =~= rs);
            assert(self.index@.dom() =~= log::index_of(rs.take(0)).dom());
        }
        while (at as u64) < end
            invariant
                self.log == old(self).log,
                self.config == old(self).config,
                self.log.wf(MAGIC),
                rs == self.log.recs(),
                0 <= i <= rs.len(),
                at == log::offset_of(rs, i),
                end == log::offset_of(rs, rs.len() as int),
                end <= log::MAX_LOG,
                log::recs_ok(rs),
                index_matches(self.index@, rs.take(i)),
                self.dead_bytes == log::dead_of(rs.take(i)),
            decreases end - at,
        {
            let ghost p = rs.take(i);
            let ghost q = rs.take(i + 1);
            proof {
                if i >= rs.len() {
                    assert(false);
                }
                log::lemma_take_next(rs, i);
                log::lemma_offset_mono(rs, i + 1, rs.len() as int);
                log::lemma_encode_len(rs[i]);
                assert(q.drop_last() =~= p);
                assert(q.last() == rs[i]);
                assert(q.take(i) =~= p);
                log::lemma_dead_bound(q);
                log::lemma_dead_bound(p);
                assert(log::rec_ok(rs[i]));
            }
            let s: Span = self.log.span(at, Ghost(MAGIC), Ghost(i));
            let bytes: &Vec<u8> = self.log.image();
            let key: Vec<u8> = le::copy_range(bytes, s.key_start, s.key_end);
            let size: u32 = (s.key_end - at) as u32;
            let prev: Option<EntryMeta> = if s.live {
                self.index.insert(key, EntryMeta { offset: at as u64, record_size: size })
            } else {
                self.index.remove(&key)
            };
            let dead: u64 = match prev {
                Some(m) => m.record_size as u64,
                None => 0,
            };
            self.dead_bytes = self.dead_bytes + dead;
            if !s.live {
                self.dead_bytes = self.dead_bytes + size as u64;
            }
            at = s.key_end;
            proof {
                assert(self.index@.dom() =~= log::index_of(q).dom());
                i = i + 1;
            }
        }
        proof {
            if i < rs.len() {
                log::lemma_offset_mono(rs, i, rs.len() as int);
            }
        }
    }

    /// The value of `key`, or `None` where there is none.
    pub fn get(&self, key: &[u8]) -> (r: Option<Vec<u8>>)
        requires
            self.wf(),
        ensures
            maps::holds(self@, key@, r),
    {
        proof {
            log::lemma_index(self.recs());
        }
        match self.index.get(key) {
            None => None,
            Some(m) => Some(self.value_of(m, Ghost(key@))),
        }
    }

    /// The value in the record that the index has for a key.
    fn value_of(&self, m: EntryMeta, Ghost(key): Ghost<Seq<u8>>) -> (v: Vec<u8>)
        requires
            self.wf(),
            self.index@.contains_key(key),
            self.index@[key] == m,
        ensures
            v@ == self@[key],
    {
        let ghost rs = self.recs();
        let ghost i = choose|i: int| #[trigger] log::points_at(rs, key, i);
        proof {
            self.log.lemma_wf(MAGIC);
            log::lemma_index(rs);
            assert(log::index_of(rs).contains_key(key));
            log::lemma_offset_mono(rs, i, rs.len() as int);
            assert(rs.take(rs.len() as int) =~= rs);
        }
        let s: Span = self.log.span(m.offset as usize, Ghost(MAGIC), Ghost(i));
        le::copy_range(self.log.image(), s.value_start, s.value_end)
    }

    /// Whether `key` has a value.
    pub fn contains(&self, key: &[u8]) -> (r: bool)
        requires
            self.wf(),
        ensures
            r == self@.contains_key(key@),
    {
        proof {
            log::lemma_index(self.recs());
        }
        self.index.get(key).is_some()
    }

    /// Whether `n` more bytes fit.
    fn room(&self, n: u64) -> (r: bool)
        requires
            self.wf(),
            n <= 0x1_0000_0000_0000_0000 - 1,
        ensures
            r == self.has_room(n as int),
    {
        proof {
            self.log.lemma_wf(MAGIC);
        }
        let used: u64 = self.log.size(Ghost(MAGIC));
        let left: u64 = log::MAX_LOG as u64 - 4 - used;
        n <= left
    }

    /// Appends a put and points the index at it.
    fn append(&mut self, key: &[u8], value: &[u8])
        requires
            old(self).wf(),
            fits(key@, value@),
            old(self).room_for(key@, value@),
        ensures
            final(self).wf(),
            final(self).config == old(self).config,
            final(self).recs() == old(self).recs().push(Rec::Put(key@, value@)),
    {
        let ghost rs = self.recs();
        let ghost q = rs.push(Rec::Put(key@, value@));
        let size: u32 = (8 + key.len() + value.len()) as u32;
        let at: usize = self.log.put(key, value, Ghost(MAGIC));
        let owned: Vec<u8> = le::copy_range(key, 0, key.len());
        assert(owned@ =~= key@);
        let prev: Option<EntryMeta> = self.index.insert(owned, EntryMeta { offset: at as u64, record_size: size });
        proof {
            self.log.lemma_wf(MAGIC);
            assert(q.drop_last() =~= rs);
            assert(q.take(rs.len() as int) =~= rs);
            log::lemma_dead_bound(q);
            log::lemma_dead_bound(rs);
            assert(self.index@.dom() =~= log::index_of(q).dom());
        }
        let dead: u64 = match prev {
            Some(m) => m.record_size as u64,
            None => 0,
        };
        self.dead_bytes = self.dead_bytes + dead;
    }

    /// Appends a tombstone and takes the key out of the index.
    fn bury(&mut self, key: &[u8])
        requires
            old(self).wf(),
            old(self)@.contains_key(key@),
            old(self).has_room(8 + key@.len() as int),
        ensures
            final(self).wf(),
            final(self).config == old(self).config,
            final(self).recs() == old(self).recs().push(Rec::Del(key@)),
    {
        let ghost rs = self.recs();
        let ghost q = rs.push(Rec::Del(key@));
        proof {
            self.log.lemma_wf(MAGIC);
            log::lemma_index(rs);
            let i = choose|i: int| #[trigger] log::points_at(rs, key@, i);
            assert(log::index_of(rs).contains_key(key@));
            assert(log::rec_ok(rs[i]));
        }
        let size: u64 = 8 + key.len() as u64;
        self.log.del(key, Ghost(MAGIC));
        let prev: Option<EntryMeta> = self.index.remove(key);
        proof {
            self.log.lemma_wf(MAGIC);
            assert(q.drop_last() =~= rs);
            log::lemma_dead_bound(q);
            log::lemma_dead_bound(rs);
            assert(self.index@.dom() =~= log::index_of(q).dom());
        }
        let dead: u64 = match prev {
            Some(m) => m.record_size as u64,
            None => 0,
        };
        self.dead_bytes = self.dead_bytes + dead + size;
    }

    /// Compacts where the configured share of dead bytes is reached.
    fn maybe_compact(&mut self)
        requires
            old(self).wf(),
        ensures
            final(self).wf(),
            final(self).config == old(self).config,
            final(self).recs() == log::settled(old(self).config.compaction_ratio, old(self).recs()),
            final(self)@ == old(self)@,
    {
        let used: u64 = self.log.size(Ghost(MAGIC));
        if self.config.compaction_ratio.reached(self.dead_bytes, used) {
            self.compact();
        }
    }

    /// Inserts or overwrites an entry.
    pub fn put(&mut self, key: &[u8], value: &[u8]) -> (r: Result<(), StorageError>)
        requires
            old(self).wf(),
            fits(key@, value@),
        ensures
            final(self).wf(),
            final(self).config_view() == old(self).config_view(),
            match r {
                Ok(_) => {
                    &&& old(self).room_for(key@, value@)
                    &&& final(self)@ == old(self)@.insert(key@, value@)
                    &&& final(self).recs() == log::settled(
                        old(self).config_view().compaction_ratio,
                        old(self).recs().push(Rec::Put(key@, value@)),
                    )
                },
                Err(e) => !old(self).room_for(key@, value@) && *final(self) == *old(self) && e
                    == StorageError::StorageFull,
            },
            // Room is refused only at the end of what a log can hold.
            r is Err ==> 4 + log::encode_all(old(self).recs()).len() + 8 + key@.len() + value@.len() + 4 > usize::MAX / 4,
    {
        if !self.room(8 + key.len() as u64 + value.len() as u64) {
            return Err(StorageError::StorageFull);
        }
        self.append(key, value);
        proof {
            let rs = old(self).recs();
            assert(rs.push(Rec::Put(key@, value@)).drop_last() =~= rs);
        }
        self.maybe_compact();
        Ok(())
    }

    /// Inserts an entry where the key is not there. Gives whether it did.
    pub fn put_if_absent(&mut self, key: &[u8], value: &[u8]) -> (r: Result<bool, StorageError>)
        requires
            old(self).wf(),
            fits(key@, value@),
        ensures
            final(self).wf(),
            final(self).config_view() == old(self).config_view(),
            match r {
                Ok(true) => {
                    &&& !old(self)@.contains_key(key@)
                    &&& old(self).room_for(key@, value@)
                    &&& final(self)@ == old(self)@.insert(key@, value@)
                    &&& final(self).recs() == log::settled(
                        old(self).config_view().compaction_ratio,
                        old(self).recs().push(Rec::Put(key@, value@)),
                    )
                },
                Ok(false) => old(self)@.contains_key(key@) && *final(self) == *old(self),
                Err(e) => !old(self)@.contains_key(key@) && !old(self).room_for(key@, value@) && *final(self) == *old(self) && e == StorageError::StorageFull,
            },
    {
        if self.contains(key) {
            return Ok(false);
        }
        match self.put(key, value) {
            Ok(_) => Ok(true),
            Err(e) => Err(e),
        }
    }

    /// Inserts or overwrites an entry and gives the value before.
    pub fn replace(&mut self, key: &[u8], value: &[u8]) -> (r: Result<Option<Vec<u8>>, StorageError>)
        requires
            old(self).wf(),
            fits(key@, value@),
        ensures
            final(self).wf(),
            final(self).config_view() == old(self).config_view(),
            match r {
                Ok(prev) => {
                    &&& old(self).room_for(key@, value@)
                    &&& maps::holds(old(self)@, key@, prev)
                    &&& final(self)@ == old(self)@.insert(key@, value@)
                    &&& final(self).recs() == log::settled(
                        old(self).config_view().compaction_ratio,
                        old(self).recs().push(Rec::Put(key@, value@)),
                    )
                },
                Err(e) => !old(self).room_for(key@, value@) && *final(self) == *old(self) && e
                    == StorageError::StorageFull,
            },
    {
        let prev: Option<Vec<u8>> = self.get(key);
        match self.put(key, value) {
            Ok(_) => Ok(prev),
            Err(e) => Err(e),
        }
    }

    /// Deletes an entry. Gives whether it was there.
    pub fn delete(&mut self, key: &[u8]) -> (r: Result<bool, StorageError>)
        requires
            old(self).wf(),
        ensures
            final(self).wf(),
            final(self).config_view() == old(self).config_view(),
            match r {
                Ok(true) => {
                    &&& old(self)@.contains_key(key@)
                    &&& old(self).has_room(8 + key@.len() as int)
                    &&& final(self)@ == old(self)@.remove(key@)
                    &&& final(self).recs() == log::settled(
                        old(self).config_view().compaction_ratio,
                        old(self).recs().push(Rec::Del(key@)),
                    )
                },
                Ok(false) => !old(self)@.contains_key(key@) && *final(self) == *old(self),
                Err(e) => old(self)@.contains_key(key@) && !old(self).has_room(8 + key@.len() as int) && *final(self)
                    == *old(self) && e == StorageError::StorageFull,
            },
            // Room is refused only at the end of what a log can hold.
            r is Err ==> 4 + log::encode_all(old(self).recs()).len() + 8 + key@.len() + 4 > usize::MAX / 4,
    {
        if !self.contains(key) {
            return Ok(false);
        }
        proof {
            let rs = self.recs();
            self.log.lemma_wf(MAGIC);
            log::lemma_index(rs);
            assert(log::index_of(rs).contains_key(key@));
            let i = choose|i: int| #[trigger] log::points_at(rs, key@, i);
            assert(log::rec_ok(rs[i]));
        }
        if !self.room(8 + key.len() as u64) {
            return Err(StorageError::StorageFull);
        }
        self.bury(key);
        proof {
            let rs = old(self).recs();
            assert(rs.push(Rec::Del(key@)).drop_last() =~= rs);
        }
        self.maybe_compact();
        Ok(true)
    }

    /// Replaces the value of `key` by what `f` makes of it; `None` stands for no entry on
    /// either side. At most one record is appended.
    pub fn update<F: FnOnce(Option<Vec<u8>>) -> Option<Vec<u8>>>(&mut self, key: &[u8], f: F) -> (r: Result<
        (),
        StorageError,
    >)
        requires
            old(self).wf(),
            forall|cur: Option<Vec<u8>>| #[trigger]
                maps::holds(old(self)@, key@, cur) ==> call_requires(f, (cur,)),
            forall|cur: Option<Vec<u8>>, out: Vec<u8>|
                maps::holds(old(self)@, key@, cur) && #[trigger] call_ensures(f, (cur,), Some(out)) ==> fits(
                    key@,
                    out@,
                ),
        ensures
            final(self).wf(),
            final(self).config_view() == old(self).config_view(),
            exists|cur: Option<Vec<u8>>, out: Option<Vec<u8>>| #[trigger]
                call_ensures(f, (cur,), out) && maps::holds(old(self)@, key@, cur) && update_done(
                    *old(self),
                    *final(self),
                    key@,
                    out,
                    r,
                ),
            // The value there was is handed over, and what comes back takes its place.
            r is Ok ==> exists|cur: Option<Vec<u8>>, out: Option<Vec<u8>>| #[trigger]
                call_ensures(f, (cur,), out) && (match cur {
                    Some(v) => old(self)@.contains_key(key@) && old(self)@[key@] == v@,
                    None => !old(self)@.contains_key(key@),
                }) && (match out {
                    Some(v) => final(self)@ == old(self)@.insert(key@, v@),
                    None => final(self)@ == old(self)@.remove(key@),
                }),
            r is Err ==> final(self)@ == old(self)@,
    {
        let cur: Option<Vec<u8>> = self.get(key);
        let found: bool = cur.is_some();
        let ghost seen = cur;
        let out: Option<Vec<u8>> = f(cur);
        assert(call_ensures(f, (seen,), out));
        match out {
            Some(v) => {
                let r: Result<(), StorageError> = self.put(key, v.as_slice());
                assert(update_done(*old(self), *self, key@, out, r));
                r
            },
            None => {
                if found {
                    match self.delete(key) {
                        Ok(_) => Ok(()),
                        Err(e) => Err(e),
                    }
                } else {
                    Ok(())
                }
            },
        }
    }

    /// Puts entries one after the other, up to the first that finds no room.
    pub fn bulk_put(&mut self, items: &Vec<(Vec<u8>, Vec<u8>)>) -> (r: Result<(), StorageError>)
        requires
            old(self).wf(),
            forall|i: int| 0 <= i < items@.len() ==> fits((#[trigger] items@[i]).0@, items@[i].1@),
        ensures
            final(self).wf(),
            final(self).config_view() == old(self).config_view(),
            match r {
                Ok(_) => {
                    &&& final(self)@ == maps::put_all(old(self)@, items@)
                    &&& final(self).recs() == log::written(
                        old(self).config_view().compaction_ratio,
                        old(self).recs(),
                        items@,
                    )
                },
                Err(e) => e == StorageError::StorageFull && exists|n: int|
                    0 <= n < items@.len() && final(self)@ == maps::put_all(old(self)@, #[trigger] items@.take(n))
                        && final(self).recs() == log::written(
                        old(self).config_view().compaction_ratio,
                        old(self).recs(),
                        items@.take(n),
                    ) && !final(self).room_for(items@[n].0@, items@[n].1@),
            },
    {
        let mut i: usize = 0;
        assert(items@.take(0) =~= Seq::<(Vec<u8>, Vec<u8>)>::empty());
        while i < items.len()
            invariant
                0 <= i <= items@.len(),
                self.wf(),
                self.config == old(self).config,
                forall|j: int| 0 <= j < items@.len() ==> fits((#[trigger] items@[j]).0@, items@[j].1@),
                self@ == maps::put_all(old(self)@, items@.take(i as int)),
                self.recs() == log::written(self.config.compaction_ratio, old(self).recs(), items@.take(i as int)),
            decreases items@.len() - i,
        {
            assert(fits(items@[i as int].0@, items@[i as int].1@));
            match self.put(items[i].0.as_slice(), items[i].1.as_slice()) {
                Ok(_) => {},
                Err(e) => {
                    return Err(e);
                },
            }
            assert(items@.take(i + 1).drop_last() =~= items@.take(i as int));
            i = i + 1;
        }
        assert(items@.take(i as int) =~= items@);
        Ok(())
    }

    /// Deletes entries one after the other, up to the first whose tombstone finds no room.
    /// Gives how many were there.
    pub fn bulk_delete(&mut self, keys: &Vec<Vec<u8>>) -> (r: Result<usize, StorageError>)
        requires
            old(self).wf(),
        ensures
            final(self).wf(),
            final(self).config_view() == old(self).config_view(),
            match r {
                Ok(n) => {
                    &&& final(self)@ == maps::without(old(self)@, keys@, keys@.len() as int)
                    &&& n == old(self)@.len() - final(self)@.len()
                    &&& final(self).recs() == log::buried(
                        old(self).config_view().compaction_ratio,
                        old(self).recs(),
                        keys@,
                    )
                },
                Err(e) => e == StorageError::StorageFull && exists|n: int|
                    0 <= n < keys@.len() && final(self)@ == maps::without(old(self)@, keys@, n)
                        && final(self)@.contains_key(#[trigger] keys@[n]@) && final(self).recs() == log::buried(
                        old(self).config_view().compaction_ratio,
                        old(self).recs(),
                        keys@.take(n),
                    ) && !final(self).has_room(8 + keys@[n]@.len() as int),
            },
    {
        let mut i: usize = 0;
        let mut n: usize = 0;
        proof {
            log::lemma_index(self.recs());
            assert(maps::without(self@, keys@, 0) =~= self@);
            assert(keys@.take(0) =~= Seq::<Vec<u8>>::empty());
        }
        while i < keys.len()
            invariant
                0 <= i <= keys@.len(),
                self.wf(),
                self.config == old(self).config,
                self@ == maps::without(old(self)@, keys@, i as int),
                self.recs() == log::buried(self.config.compaction_ratio, old(self).recs(), keys@.take(i as int)),
                n == old(self)@.len() - self@.len(),
                n <= i,
                self@.dom().finite(),
            decreases keys@.len() - i,
        {
            let ghost before = self@;
            match self.delete(keys[i].as_slice()) {
                Ok(there) => {
                    proof {
                        let k = keys@[i as int]@;
                        assert(keys@.take(i + 1).drop_last() =~= keys@.take(i as int));
                        assert(maps::without(old(self)@, keys@, i + 1) =~= before.remove(k)) by {
                            maps::lemma_among_next(keys@, i as int);
                        }
                        if !there {
                            assert(before.remove(k) =~= before);
                        }
                        assert(before.remove(k).dom() =~= before.dom().remove(k));
                    }
                    if there {
                        n = n + 1;
                    }
                },
                Err(e) => {
                    return Err(e);
                },
            }
            i = i + 1;
        }
        assert(keys@.take(i as int) =~= keys@);
        Ok(n)
    }

    /// Drops all entries. The image keeps its length.
    pub fn clear(&mut self)
        requires
            old(self).wf(),
        ensures
            final(self).wf(),
            final(self).config_view() == old(self).config_view(),
            final(self).recs() == Seq::<Rec>::empty(),
            final(self)@ == Map::<Seq<u8>, Seq<u8>>::empty(),
            final(self).image_view().len() == old(self).image_view().len(),
    {
        self.index.clear();
        self.log.reset(Ghost(MAGIC));
        self.dead_bytes = 0;
        assert(self.index@.dom() =~= log::index_of(self.recs()).dom());
    }

    /// The live records alone are left, with room behind them down to the initial capacity.
    pub open spec fn repacked(&self, to: &Self) -> bool {
        &&& to.recs() == log::compacted(self.recs())
        &&& to.stats_view().dead_bytes == 0
        &&& to.image_view().len() == (if to.stats_view().data_size + 4 < self.config_view().initial_capacity {
            self.config_view().initial_capacity as int
        } else {
            to.stats_view().data_size + 4
        })
    }

    /// Rewrites the log with its live records alone, in the order in which they stand, and
    /// gives back the room behind them down to the initial capacity.
    pub fn compact(&mut self)
        requires
            old(self).wf(),
        ensures
            final(self).wf(),
            final(self).config_view() == old(self).config_view(),
            final(self)@ == old(self)@,
            old(self).repacked(final(self)),
            // One put is left for each entry, and no more room than was asked for at first, or than they take.
            forall|i: int| 0 <= i < final(self).recs().len() ==> (#[trigger] final(self).recs()[i]) is Put,
            forall|i: int| 0 <= i < final(self).recs().len() ==> old(self).recs().contains(#[trigger] final(self).recs()[i]),
            forall|i: int, j: int|
                0 <= i < j < final(self).recs().len() ==> log::rec_key(#[trigger] final(self).recs()[i]) != log::rec_key(
                    #[trigger] final(self).recs()[j],
                ),
            final(self).image_view().len()
                == (if 4 + log::encode_all(final(self).recs()).len() + 4 < old(self).config_view().initial_capacity {
                old(self).config_view().initial_capacity as nat
            } else {
                4 + log::encode_all(final(self).recs()).len() + 4
            }),
    {
        proof {
            self.lemma_image();
            log::compaction_leaves_each_entry_once(self.recs());
        }
        let ghost rs = self.recs();
        let ghost mut i: int = 0;
        let mut at: usize = log::HEADER_SIZE;
        let end: u64 = self.log.size(Ghost(MAGIC));
        let mut packed: Log = Log::create(MAGIC, self.config.initial_capacity as usize);
        let mut moved: HashIndex = HashIndex::new();
        proof {
            self.log.lemma_wf(MAGIC);
            assert(rs.take(0) =~= Seq::<Rec>::empty());
            assert(rs.take(rs.len() as int) =~= rs);
            assert(moved@.dom() =~= log::index_of(Seq::<Rec>::empty()).dom());
        }
        while (at as u64) < end
            invariant
                *self == *old(self),
                self.wf(),
                rs == self.log.recs(),
                0 <= i <= rs.len(),
                at == log::offset_of(rs, i),
                end == log::offset_of(rs, rs.len() as int),
                end + 4 <= log::MAX_LOG,
                log::recs_ok(rs),
                packed.wf(MAGIC),
                packed.recs() == log::live_recs(rs, i),
                index_matches(moved@, packed.recs()),
            decreases end - at,
        {
            let ghost a = packed.recs();
            proof {
                if i >= rs.len() {
                    assert(false);
                }
                log::lemma_take_next(rs, i);
                log::lemma_offset_mono(rs, i + 1, rs.len() as int);
                log::lemma_encode_len(rs[i]);
                log::lemma_live_recs(rs, i);
                log::lemma_index(rs);
                assert(log::rec_ok(rs[i]));
            }
            let s: Span = self.log.span(at, Ghost(MAGIC), Ghost(i));
            if s.live {
                let bytes: &Vec<u8> = self.log.image();
                let key: &[u8] = vstd::slice::slice_subrange(bytes.as_slice(), s.key_start, s.key_end);
                let here: bool = match self.index.get(key) {
                    Some(m) => m.offset == at as u64,
                    None => false,
                };
                if here {
                    let value: &[u8] = vstd::slice::slice_subrange(bytes.as_slice(), s.value_start, s.value_end);
                    assert(log::live_at(rs, i));
                    let to: usize = packed.put(key, value, Ghost(MAGIC));
                    let owned: Vec<u8> = le::copy_range(key, 0, key.len());
                    assert(owned@ =~= key@);
                    let _ = moved.insert(
                        owned,
                        EntryMeta { offset: to as u64, record_size: (s.key_end - at) as u32 },
                    );
                    proof {
                        let b = packed.recs();
                        assert(b.drop_last() =~= a);
                        assert(b.take(a.len() as int) =~= a);
                        assert(moved@.dom() =~= log::index_of(b).dom());
                    }
                }
            }
            at = s.key_end;
            proof {
                i = i + 1;
            }
        }
        proof {
            if i < rs.len() {
                log::lemma_offset_mono(rs, i, rs.len() as int);
            }
            log::lemma_compacted(rs);
        }
        packed.trim(self.config.initial_capacity as usize, Ghost(MAGIC));
        self.log = packed;
        self.index = moved;
        self.dead_bytes = 0;
        proof {
            self.lemma_image();
        }
    }

    /// The keys, in an order that is left open.
    pub fn keys(&self) -> (r: Vec<Vec<u8>>)
        requires
            self.wf(),
        ensures
            maps::lists_keys(self@, r@),
    {
        proof {
            log::lemma_index(self.recs());
        }
        self.index.keys()
    }

    /// The entries, in an order that is left open.
    pub fn entries(&self) -> (r: Vec<(Vec<u8>, Vec<u8>)>)
        requires
            self.wf(),
        ensures
            maps::lists_entries(self@, r@),
    {
        let keys: Vec<Vec<u8>> = self.keys();
        let mut out: Vec<(Vec<u8>, Vec<u8>)> = Vec::new();
        let mut i: usize = 0;
        while i < keys.len()
            invariant
                0 <= i <= keys@.len(),
                self.wf(),
                maps::lists_keys(self@, keys@),
                out@.len() == i,
                forall|j: int| 0 <= j < i ==> (#[trigger] out@[j]).0@ == keys@[j]@ && out@[j].1@ == self@[keys@[j]@],
            decreases keys@.len() - i,
        {
            assert(self@.contains_key(keys@[i as int]@));
            match self.get(keys[i].as_slice()) {
                Some(v) => {
                    let k: Vec<u8> = le::copy_range(keys[i].as_slice(), 0, keys[i].len());
                    assert(k@ =~= keys@[i as int]@);
                    out.push((k, v));
                },
                None => {},
            }
            i = i + 1;
        }
        proof {
            maps::lemma_lists(self@, keys@, out@);
        }
        out
    }

    /// The values, in the order of the keys that go with them.
    pub fn values(&self) -> (r: Vec<Vec<u8>>)
        requires
            self.wf(),
        ensures
            maps::lists_values(self@, r@),
    {
        let keys: Vec<Vec<u8>> = self.keys();
        let mut out: Vec<Vec<u8>> = Vec::new();
        let mut i: usize = 0;
        while i < keys.len()
            invariant
                0 <= i <= keys@.len(),
                self.wf(),
                maps::lists_keys(self@, keys@),
                out@.len() == i,
                forall|j: int| 0 <= j < i ==> (#[trigger] out@[j])@ == self@[keys@[j]@],
            decreases keys@.len() - i,
        {
            assert(self@.contains_key(keys@[i as int]@));
            match self.get(keys[i].as_slice()) {
                Some(v) => {
                    out.push(v);
                },
                None => {},
            }
            i = i + 1;
        }
        assert(maps::values_under(self@, keys@, out@));
        out
    }

    /// The number of entries.
    pub fn size(&self) -> (r: usize)
        requires
            self.wf(),
        ensures
            r == self@.len(),
    {
        proof {
            log::lemma_index(self.recs());
        }
        self.index.len()
    }

    pub fn is_empty(&self) -> (r: bool)
        requires
            self.wf(),
        ensures
            r == (self@.len() == 0),
    {
        self.size() == 0
    }

    /// The counters.
    pub fn stats(&self) -> (r: KeyDirStats)
        requires
            self.wf(),
        ensures
            r == self.stats_view(),
            r.data_size == 4 + log::encode_all(self.recs()).len(),
            r.dead_bytes == log::dead_of(self.recs()),
    {
        proof {
            self.lemma_image();
            log::lemma_dead_bound(self.recs());
        }
        KeyDirStats { data_size: self.log.size(Ghost(MAGIC)), dead_bytes: self.dead_bytes }
    }

    pub fn config(&self) -> (r: KeyDirConfig)
        ensures
            r == self.config_view(),
    {
        self.config
    }

    /// The bytes to keep; `open` reads them back.
    pub fn image(&self) -> (r: &Vec<u8>)
        ensures
            r@ == self.image_view(),
    {
        self.log.image()
    }
}

/// What an update leaves, where the closure gave `out`.
pub open spec fn update_done(
    before: KeyDir,
    after: KeyDir,
    key: Seq<u8>,
    out: Option<Vec<u8>>,
    r: Result<(), StorageError>,
) -> bool {
    match out {
        Some(v) => match r {
            Ok(_) => before.room_for(key, v@) && after@ == before@.insert(key, v@) && after.recs() == log::settled(
                before.config_view().compaction_ratio,
                before.recs().push(Rec::Put(key, v@)),
            ),
            Err(e) => !before.room_for(key, v@) && after == before && e == StorageError::StorageFull,
        },
        None => match r {
            Ok(_) => if before@.contains_key(key) {
                before.has_room(8 + key.len() as int) && after@ == before@.remove(key) && after.recs() == log::settled(
                before.config_view().compaction_ratio,
                    before.recs().push(Rec::Del(key)),
                )
            } else {
                after == before
            },
            Err(e) => before@.contains_key(key) && !before.has_room(8 + key.len() as int) && after == before && e
                == StorageError::StorageFull,
        },
    }
}

} // verus!
