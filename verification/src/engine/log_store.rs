//! An append-only log with its live entries in a skip list in memory. The log is read once,
//! when it is opened; after that it is only written.

use crate::engine::index::EntryMeta;
use crate::engine::lists;
use crate::engine::lists::Payload;
use crate::engine::log;
use crate::engine::log::Log;
use crate::engine::log::Rec;
use crate::engine::log::Span;
use crate::engine::maps;
use crate::engine::ordered;
use crate::engine::skiplist;
use crate::engine::skiplist::SkipList;
use crate::engine::skiplist::SkipListCapacity;
use crate::engine::skiplist::SkipListConfig;
use crate::error::StorageError;
use crate::utils::key::Key;
use crate::utils::le;
use crate::utils::lex;
use vstd::prelude::*;

verus! {

/// First four bytes of an image, `OLOG`.
pub const MAGIC: u32 = 0x474F4C4F;

/// A value in memory, and where the log has it.
pub struct Slot {
    pub value: Vec<u8>,
    pub meta: EntryMeta,
}

impl Payload for Slot {
    open spec fn bytes(&self) -> Seq<u8> {
        self.value@
    }

    fn copy(&self) -> (r: Vec<u8>) {
        self.value.duplicate()
    }
}

/// A log and its live entries.
pub struct LogStore {
    index: SkipList<Vec<u8>, Slot>,
    log: Log,
    capacity: usize,
    dead_bytes: u64,
}

/// The values in memory.
pub open spec fn values_of(m: Map<Seq<u8>, Slot>) -> Map<Seq<u8>, Seq<u8>> {
    lists::bytes_of(m)
}

/// Memory has what the log leaves.
pub open spec fn in_step(m: Map<Seq<u8>, Slot>, rs: Seq<Rec>) -> bool {
    let want = log::index_of(rs);
    &&& values_of(m) == log::kv_of(rs)
    &&& forall|k: Seq<u8>| #[trigger]
        want.contains_key(k) ==> m[k].meta.offset == want[k].0 && m[k].meta.record_size == want[k].1
}

/// The puts of entries one after the other.
pub open spec fn puts_of(items: Seq<(Seq<u8>, Slot)>) -> Seq<Rec>
    decreases items.len(),
{
    if items.len() == 0 {
        Seq::empty()
    } else {
        puts_of(items.drop_last()).push(Rec::Put(items.last().0, items.last().1.value@))
    }
}

/// Puts alone, with keys that rise strictly.
pub open spec fn in_key_order(rs: Seq<Rec>) -> bool {
    &&& forall|i: int| 0 <= i < rs.len() ==> #[trigger] rs[i] is Put
    &&& forall|i: int, j: int|
        0 <= i < j < rs.len() ==> lex::lt(#[trigger] log::rec_key(rs[i]), #[trigger] log::rec_key(rs[j]))
}

/// A put in key order is live.
proof fn lemma_order_live(rs: Seq<Rec>, i: int)
    requires
        in_key_order(rs),
        0 <= i < rs.len(),
    ensures
        rs[i] is Put,
        log::kv_of(rs).contains_key(rs[i]->Put_0),
        log::kv_of(rs)[rs[i]->Put_0] == rs[i]->Put_1,
    decreases rs.len(),
{
    let p = rs.drop_last();
    let n = rs.len() - 1;
    assert(rs[i] is Put && rs[n] is Put);
    if i < n {
        assert(in_key_order(p)) by {
            assert forall|a: int| 0 <= a < p.len() implies #[trigger] p[a] is Put by {
                assert(rs[a] is Put);
            }
            assert forall|a: int, b: int| 0 <= a < b < p.len() implies lex::lt(
                #[trigger] log::rec_key(p[a]),
                #[trigger] log::rec_key(p[b]),
            ) by {
                assert(lex::lt(log::rec_key(rs[a]), log::rec_key(rs[b])));
            }
        }
        lemma_order_live(p, i);
        assert(lex::lt(log::rec_key(rs[i]), log::rec_key(rs[n])));
        lex::lt_irrefl(log::rec_key(rs[i]));
    }
}

/// Puts in key order with the entries of records that cannot be taken for blank bytes cannot
/// either.
pub proof fn lemma_order_named(before: Seq<Rec>, after: Seq<Rec>)
    requires
        log::named(before),
        in_key_order(after),
        log::kv_of(after) == log::kv_of(before),
    ensures
        log::named(after),
{
    assert forall|i: int| 0 <= i < after.len() implies log::has_name(#[trigger] after[i]) by {
        lemma_order_live(after, i);
        log::lemma_named_entry(before, after[i]->Put_0);
    }
}

/// The puts of rising entries are in key order.
proof fn lemma_puts_of(items: Seq<(Seq<u8>, Slot)>)
    requires
        ordered::rising::<Vec<u8>, Slot>(items),
    ensures
        in_key_order(puts_of(items)),
        puts_of(items).len() == items.len(),
        forall|i: int| 0 <= i < items.len() ==> #[trigger] puts_of(items)[i] == Rec::Put(items[i].0, items[i].1.value@),
    decreases items.len(),
{
    if items.len() > 0 {
        let n = items.len() - 1;
        let p = items.drop_last();
        assert(ordered::rising::<Vec<u8>, Slot>(p)) by {
            assert forall|x: int, y: int| 0 <= x < y < p.len() implies <Vec<u8> as Key>::before(
                #[trigger] p[x].0,
                #[trigger] p[y].0,
            ) by {
                assert(<Vec<u8> as Key>::before(items[x].0, items[y].0));
            }
        }
        lemma_puts_of(p);
        let rs = puts_of(items);
        assert forall|i: int, j: int| 0 <= i < j < rs.len() implies lex::lt(
            #[trigger] log::rec_key(rs[i]),
            #[trigger] log::rec_key(rs[j]),
        ) by {
            assert(rs[i] == puts_of(p)[i]);
            if j < n {
                assert(rs[j] == puts_of(p)[j]);
            }
            assert(<Vec<u8> as Key>::before(items[i].0, items[j].0));
        }
    }
}

/// Every live entry takes at least eight bytes.
pub proof fn lemma_entries_fit(rs: Seq<Rec>)
    ensures
        log::kv_of(rs).dom().finite(),
        8 * log::kv_of(rs).len() <= log::encode_all(rs).len(),
    decreases rs.len(),
{
    log::lemma_index(rs);
    if rs.len() > 0 {
        lemma_entries_fit(rs.drop_last());
        log::lemma_encode_len(rs.last());
        let m = log::kv_of(rs.drop_last());
        match rs.last() {
            Rec::Put(k, v) => {
                assert(m.insert(k, v).dom() =~= m.dom().insert(k));
            },
            Rec::Del(k) => {
                assert(m.remove(k).dom() =~= m.dom().remove(k));
            },
        }
    } else {
        assert(log::kv_of(rs).dom() =~= Set::<Seq<u8>>::empty());
    }
}

impl View for LogStore {
    type V = Map<Seq<u8>, Seq<u8>>;

    open spec fn view(&self) -> Map<Seq<u8>, Seq<u8>> {
        log::kv_of(self.recs())
    }
}

impl LogStore {
    /// The records of the log, oldest first.
    pub closed spec fn recs(&self) -> Seq<Rec> {
        self.log.recs()
    }

    pub closed spec fn wf(&self) -> bool {
        &&& self.log.wf(MAGIC)
        &&& self.index.wf()
        &&& self.index.config_view().capacity == SkipListCapacity::Unbounded
        &&& in_step(self.index@, self.recs())
        &&& self.dead_bytes == log::dead_of(self.recs())
        &&& self.capacity <= log::MAX_LOG
    }

    /// The least length that compaction leaves.
    pub closed spec fn floor(&self) -> int {
        self.capacity as int
    }

    /// The bytes to keep.
    pub closed spec fn image_view(&self) -> Seq<u8> {
        self.log.image_view()
    }

    /// Whether a record of `n` bytes can be appended.
    pub open spec fn has_room(&self, n: int) -> bool {
        log::HEADER_SIZE + log::encode_all(self.recs()).len() + n + 4 <= log::MAX_LOG
    }

    /// The store is its log. Live and dead bytes together are those in use.
    pub proof fn lemma_image(&self)
        requires
            self.wf(),
        ensures
            log::is_image(self.image_view(), MAGIC, self.recs()),
            log::valid_image(self.image_view(), MAGIC),
            log::image_recs(self.image_view()) == self.recs(),
            log::recs_ok(self.recs()),
            self@.dom().finite(),
            0 <= log::dead_of(self.recs()),
            log::HEADER_SIZE + log::encode_all(self.recs()).len() + 4 <= log::MAX_LOG,
            log::dead_of(self.recs()) + log::live_total(log::index_of(self.recs())) == log::encode_all(
                self.recs(),
            ).len(),
            log::dead_of(self.recs()) <= log::encode_all(self.recs()).len(),
    {
        self.log.lemma_wf(MAGIC);
        log::lemma_image(self.image_view(), MAGIC, self.recs());
        log::lemma_index(self.recs());
        log::lemma_dead_bound(self.recs());
    }

    proof fn lemma_step(&self)
        requires
            self.wf(),
        ensures
            self.index@.dom() == self@.dom(),
            self@.dom().finite(),
            self.index@.len() == self@.len(),
            forall|k: Seq<u8>| #[trigger] self@.contains_key(k) ==> self.index@.contains_key(k) && self.index@[k].value@
                == self@[k],
            forall|k: Seq<u8>| #[trigger] self.index@.contains_key(k) ==> self@.contains_key(k) && self.index@[k].value@
                == self@[k] && log::index_of(self.recs()).contains_key(k),
    {
        log::lemma_index(self.recs());
        assert(values_of(self.index@).dom() =~= self.index@.dom());
        assert forall|k: Seq<u8>| #[trigger] self@.contains_key(k) implies self.index@.contains_key(k)
            && self.index@[k].value@ == self@[k] by {
            assert(values_of(self.index@).contains_key(k));
        }
        assert forall|k: Seq<u8>| #[trigger] self.index@.contains_key(k) implies self@.contains_key(k)
            && self.index@[k].value@ == self@[k] && log::index_of(self.recs()).contains_key(k) by {
            assert(values_of(self.index@).contains_key(k));
        }
    }

    /// An empty store with room for `capacity` bytes.
    pub fn create(capacity: usize) -> (r: Self)
        requires
            capacity <= log::MAX_LOG,
        ensures
            r.wf(),
            r.floor() == capacity,
            r.recs() == Seq::<Rec>::empty(),
            r.image_view().len() == if capacity < 8 { 8 } else { capacity as int },
    {
        let index: SkipList<Vec<u8>, Slot> = SkipList::new(SkipListConfig { capacity: SkipListCapacity::Unbounded });
        let log: Log = Log::create(MAGIC, capacity);
        assert(values_of(index@) =~= log::kv_of(Seq::<Rec>::empty()));
        LogStore { index, log, capacity, dead_bytes: 0 }
    }

    /// Reads a store from its bytes and fills the skip list from them.
    pub fn open(bytes: Vec<u8>, capacity: usize) -> (r: Result<Self, StorageError>)
        requires
            capacity <= log::MAX_LOG,
            bytes@.len() + 4 <= log::MAX_LOG,
        ensures
            match r {
                Ok(t) => log::valid_image(bytes@, MAGIC) && t.wf() && t.floor() == capacity && t.recs()
                    == log::image_recs(bytes@),
                Err(e) => e == StorageError::InvalidData && !log::valid_image(bytes@, MAGIC),
            },
    {
        match Log::open(bytes, MAGIC) {
            Err(e) => Err(e),
            Ok(log) => {
                let index: SkipList<Vec<u8>, Slot> = SkipList::new(
                    SkipListConfig { capacity: SkipListCapacity::Unbounded },
                );
                let mut t: LogStore = LogStore { index, log, capacity, dead_bytes: 0 };
                t.replay();
                Ok(t)
            },
        }
    }

    /// Puts the records of the log into the skip list, the last of each key winning.
    fn replay(&mut self)
        requires
            old(self).log.wf(MAGIC),
            old(self).index.wf(),
            old(self).index.config_view().capacity == SkipListCapacity::Unbounded,
            old(self).index@ == Map::<Seq<u8>, Slot>::empty(),
            old(self).dead_bytes == 0,
            old(self).capacity <= log::MAX_LOG,
        ensures
            final(self).wf(),
            final(self).capacity == old(self).capacity,
            final(self).recs() == old(self).recs(),
    {
        let ghost rs = self.log.recs();
        let ghost mut i: int = 0;
        let mut at: usize = log::HEADER_SIZE;
        let end: u64 = self.log.size(Ghost(MAGIC));
        proof {
            self.log.lemma_wf(MAGIC);
            assert(rs.take(0) =~= Seq::<Rec>::empty());
            assert(rs.take(rs.len() as int) =~= rs);
            assert(values_of(self.index@) =~= log::kv_of(rs.take(0)));
        }
        while (at as u64) < end
            invariant
                self.log == old(self).log,
                self.capacity == old(self).capacity,
                self.log.wf(MAGIC),
                self.index.wf(),
                self.index.config_view().capacity == SkipListCapacity::Unbounded,
                rs == self.log.recs(),
                0 <= i <= rs.len(),
                at == log::offset_of(rs, i),
                end == log::offset_of(rs, rs.len() as int),
                end + 4 <= log::MAX_LOG,
                log::recs_ok(rs),
                in_step(self.index@, rs.take(i)),
                self.dead_bytes == log::dead_of(rs.take(i)),
            decreases end - at,
        {
            let ghost p = rs.take(i);
            let ghost q = rs.take(i + 1);
            proof {
                if i >= rs.len() {
                    assert(false);
                }
                log::lemma_take_next(rs, i);
                log::lemma_offset_mono(rs, i + 1, rs.len() as int);
                log::lemma_encode_len(rs[i]);
                assert(q.drop_last() =~= p);
                assert(q.last() == rs[i]);
                assert(q.take(i) =~= p);
                log::lemma_dead_bound(q);
                log::lemma_dead_bound(p);
                log::lemma_index(p);
                log::lemma_index(q);
                lemma_entries_fit(p);
                assert(values_of(self.index@).dom() =~= self.index@.dom());
                assert(log::rec_ok(rs[i]));
            }
            let s: Span = self.log.span(at, Ghost(MAGIC), Ghost(i));
            let bytes: &Vec<u8> = self.log.image();
            let key: Vec<u8> = le::copy_range(bytes, s.key_start, s.key_end);
            let size: u32 = (s.key_end - at) as u32;
            let ghost m = self.index@;
            let ghost k = key@;
            proof {
                assert(m.contains_key(k) == log::kv_of(p).contains_key(k));
            }
            let prev: Option<Slot> = if s.live {
                let value: Vec<u8> = le::copy_range(bytes, s.value_start, s.value_end);
                let slot: Slot = Slot { value, meta: EntryMeta { offset: at as u64, record_size: size } };
                let ghost sl = slot;
                match self.index.replace(&key, slot) {
                    Ok(prev) => {
                        proof {
                            assert(values_of(m.insert(k, sl)) =~= values_of(m).insert(k, sl.value@));
                        }
                        prev
                    },
                    Err(_) => {
                        assert(false);
                        None
                    },
                }
            } else {
                proof {
                    assert(values_of(m.remove(k)) =~= values_of(m).remove(k));
                }
                self.index.take(&key)
            };
            let dead: u64 = match prev {
                Some(slot) => slot.meta.record_size as u64,
                None => 0,
            };
            self.dead_bytes = self.dead_bytes + dead;
            if !s.live {
                self.dead_bytes = self.dead_bytes + size as u64;
            }
            at = s.key_end;
            proof {
                i = i + 1;
            }
        }
        proof {
            if i < rs.len() {
                log::lemma_offset_mono(rs, i, rs.len() as int);
            }
        }
    }

    /// The value of `key`, or `None` where there is none.
    pub fn get(&self, key: &Vec<u8>) -> (r: Option<&Vec<u8>>)
        requires
            self.wf(),
        ensures
            match r {
                Some(v) => self@.contains_key(key@) && v@ == self@[key@],
                None => !self@.contains_key(key@),
            },
    {
        proof {
            self.lemma_step();
        }
        match self.index.get(key) {
            Some(s) => Some(&s.value),
            None => None,
        }
    }

    /// Whether `key` has a value.
    pub fn contains(&self, key: &Vec<u8>) -> (r: bool)
        requires
            self.wf(),
        ensures
            r == self@.contains_key(key@),
    {
        proof {
            self.lemma_step();
        }
        self.index.contains(key)
    }

    /// Whether `n` more bytes fit.
    pub fn room(&self, n: u64) -> (r: bool)
        requires
            self.wf(),
        ensures
            r == self.has_room(n as int),
    {
        proof {
            self.log.lemma_wf(MAGIC);
        }
        let used: u64 = self.log.size(Ghost(MAGIC));
        let left: u64 = log::MAX_LOG as u64 - 4 - used;
        n <= left
    }

    /// Appends a put and takes the value into memory. Gives the value before.
    pub fn append(&mut self, key: &Vec<u8>, value: Vec<u8>) -> (r: Option<Vec<u8>>)
        requires
            old(self).wf(),
            8 + key@.len() + value@.len() <= u32::MAX,
            old(self).has_room(8 + key@.len() as int + value@.len()),
        ensures
            final(self).wf(),
            final(self).floor() == old(self).floor(),
            final(self).recs() == old(self).recs().push(Rec::Put(key@, value@)),
            maps::holds(old(self)@, key@, r),
    {
        let ghost rs = self.recs();
        let ghost r = Rec::Put(key@, value@);
        let ghost q = rs.push(r);
        let ghost m = self.index@;
        let size: u32 = (8 + key.len() + value.len()) as u32;
        proof {
            self.lemma_step();
            lemma_entries_fit(rs);
        }
        let at: usize = self.log.put(key, &value, Ghost(MAGIC));
        let slot: Slot = Slot { value, meta: EntryMeta { offset: at as u64, record_size: size } };
        let ghost sl = slot;
        proof {
            self.log.lemma_wf(MAGIC);
            assert(q.drop_last() =~= rs);
            assert(q.take(rs.len() as int) =~= rs);
            log::lemma_dead_bound(q);
            log::lemma_dead_bound(rs);
            log::lemma_index(rs);
            log::lemma_index(q);
            assert(values_of(m.insert(key@, sl)) =~= values_of(m).insert(key@, sl.value@));
        }
        match self.index.replace(key, slot) {
            Ok(prev) => {
                match prev {
                    Some(old_slot) => {
                        self.dead_bytes = self.dead_bytes + old_slot.meta.record_size as u64;
                        Some(old_slot.value)
                    },
                    None => None,
                }
            },
            Err(_) => {
                assert(false);
                None
            },
        }
    }

    /// Appends a tombstone and drops the value from memory.
    pub fn bury(&mut self, key: &Vec<u8>)
        requires
            old(self).wf(),
            old(self)@.contains_key(key@),
            old(self).has_room(8 + key@.len() as int),
        ensures
            final(self).wf(),
            final(self).floor() == old(self).floor(),
            final(self).recs() == old(self).recs().push(Rec::Del(key@)),
    {
        let ghost rs = self.recs();
        let ghost q = rs.push(Rec::Del(key@));
        let ghost m = self.index@;
        proof {
            self.lemma_step();
            self.log.lemma_wf(MAGIC);
            log::lemma_index(rs);
            assert(log::index_of(rs).contains_key(key@));
            let i = choose|i: int| #[trigger] log::points_at(rs, key@, i);
            assert(log::rec_ok(rs[i]));
        }
        let size: u64 = 8 + key.len() as u64;
        self.log.del(key, Ghost(MAGIC));
        proof {
            self.log.lemma_wf(MAGIC);
            assert(q.drop_last() =~= rs);
            log::lemma_dead_bound(q);
            log::lemma_dead_bound(rs);
            log::lemma_index(q);
            assert(values_of(m.remove(key@)) =~= values_of(m).remove(key@));
        }
        let dead: u64 = match self.index.take(key) {
            Some(slot) => slot.meta.record_size as u64,
            None => 0,
        };
        self.dead_bytes = self.dead_bytes + dead + size;
    }

    /// A key that has a value fits a tombstone.
    pub proof fn lemma_key_fits(&self, key: Seq<u8>)
        requires
            self.wf(),
            self@.contains_key(key),
        ensures
            8 + key.len() <= u32::MAX,
    {
        let rs = self.recs();
        self.log.lemma_wf(MAGIC);
        log::lemma_index(rs);
        assert(log::index_of(rs).contains_key(key));
        let i = choose|i: int| #[trigger] log::points_at(rs, key, i);
        assert(log::rec_ok(rs[i]));
    }

    /// Drops all entries. The image keeps its length.
    pub fn clear(&mut self)
        requires
            old(self).wf(),
        ensures
            final(self).wf(),
            final(self).floor() == old(self).floor(),
            final(self).recs() == Seq::<Rec>::empty(),
            final(self).image_view().len() == old(self).image_view().len(),
    {
        let _ = self.index.clear();
        self.log.reset(Ghost(MAGIC));
        self.dead_bytes = 0;
        assert(values_of(self.index@) =~= log::kv_of(self.recs()));
    }

    /// Bytes in use.
    pub fn data_size(&self) -> (r: u64)
        requires
            self.wf(),
        ensures
            r == log::HEADER_SIZE + log::encode_all(self.recs()).len(),
    {
        self.log.size(Ghost(MAGIC))
    }

    /// Bytes of records that hold no live value.
    pub fn dead_bytes(&self) -> (r: u64)
        requires
            self.wf(),
        ensures
            r == log::dead_of(self.recs()),
    {
        self.dead_bytes
    }

    /// The number of entries.
    pub fn size(&self) -> (r: usize)
        requires
            self.wf(),
        ensures
            r == self@.len(),
    {
        proof {
            self.lemma_step();
        }
        self.index.size()
    }

    /// The bytes to keep; `open` reads them back.
    pub fn image(&self) -> (r: &Vec<u8>)
        ensures
            r@ == self.image_view(),
    {
        self.log.image()
    }

    /// Rewrites the log with its live records alone, in the order in which they stand, and
    /// gives back the room behind them down to the initial capacity.
    pub fn compact_in_place(&mut self)
        requires
            old(self).wf(),
        ensures
            final(self).wf(),
            final(self).floor() == old(self).floor(),
            final(self).recs() == log::compacted(old(self).recs()),
            final(self)@ == old(self)@,
            log::dead_of(final(self).recs()) == 0,
            final(self).image_view().len() == packed_len(final(self).recs(), old(self).floor()),
    {
        let ghost rs = self.recs();
        let ghost mut i: int = 0;
        let mut at: usize = log::HEADER_SIZE;
        let end: u64 = self.log.size(Ghost(MAGIC));
        let mut packed: Log = Log::create(MAGIC, self.capacity);
        let mut moved: SkipList<Vec<u8>, Slot> = SkipList::new(
            SkipListConfig { capacity: SkipListCapacity::Unbounded },
        );
        proof {
            self.log.lemma_wf(MAGIC);
            assert(rs.take(0) =~= Seq::<Rec>::empty());
            assert(rs.take(rs.len() as int) =~= rs);
            assert(values_of(moved@) =~= log::kv_of(Seq::<Rec>::empty()));
        }
        while (at as u64) < end
            invariant
                *self == *old(self),
                self.wf(),
                rs == self.log.recs(),
                0 <= i <= rs.len(),
                at == log::offset_of(rs, i),
                end == log::offset_of(rs, rs.len() as int),
                end + 4 <= log::MAX_LOG,
                log::recs_ok(rs),
                packed.wf(MAGIC),
                packed.recs() == log::live_recs(rs, i),
                moved.wf(),
                moved.config_view().capacity == SkipListCapacity::Unbounded,
                in_step(moved@, packed.recs()),
            decreases end - at,
        {
            let ghost a = packed.recs();
            proof {
                if i >= rs.len() {
                    assert(false);
                }
                log::lemma_take_next(rs, i);
                log::lemma_offset_mono(rs, i + 1, rs.len() as int);
                log::lemma_encode_len(rs[i]);
                log::lemma_live_recs(rs, i);
                log::lemma_index(rs);
                log::lemma_index(a);
                lemma_entries_fit(a);
                self.lemma_step();
                assert(values_of(moved@).dom() =~= moved@.dom());
                assert(log::rec_ok(rs[i]));
            }
            let s: Span = self.log.span(at, Ghost(MAGIC), Ghost(i));
            if s.live {
                let bytes: &Vec<u8> = self.log.image();
                let key: Vec<u8> = le::copy_range(bytes.as_slice(), s.key_start, s.key_end);
                let here: bool = match self.index.get(&key) {
                    Some(slot) => slot.meta.offset == at as u64,
                    None => false,
                };
                if here {
                    let value: Vec<u8> = le::copy_range(bytes.as_slice(), s.value_start, s.value_end);
                    assert(log::live_at(rs, i));
                    let to: usize = packed.put(&key, &value, Ghost(MAGIC));
                    let slot: Slot = Slot {
                        value,
                        meta: EntryMeta { offset: to as u64, record_size: (s.key_end - at) as u32 },
                    };
                    let ghost m = moved@;
                    let ghost sl = slot;
                    let ghost k = key@;
                    match moved.put(key, slot) {
                        Ok(_) => {},
                        Err(_) => {
                            assert(false);
                        },
                    }
                    proof {
                        let b = packed.recs();
                        assert(b.drop_last() =~= a);
                        assert(b.take(a.len() as int) =~= a);
                        log::lemma_index(b);
                        assert(values_of(m.insert(k, sl)) =~= values_of(m).insert(k, sl.value@));
                    }
                }
            }
            at = s.key_end;
            proof {
                i = i + 1;
            }
        }
        proof {
            if i < rs.len() {
                log::lemma_offset_mono(rs, i, rs.len() as int);
            }
            log::lemma_compacted(rs);
        }
        packed.trim(self.capacity, Ghost(MAGIC));
        self.log = packed;
        self.index = moved;
        self.dead_bytes = 0;
    }

    /// Rewrites the log with one record for each live entry, in key order.
    pub fn compact_by_key(&mut self)
        requires
            old(self).wf(),
        ensures
            final(self).wf(),
            final(self).floor() == old(self).floor(),
            in_key_order(final(self).recs()),
            final(self)@ == old(self)@,
            log::dead_of(final(self).recs()) == 0,
            log::encode_all(final(self).recs()).len() <= log::encode_all(old(self).recs()).len(),
            final(self).image_view().len() >= old(self).floor(),
    {
        let ghost items = self.index.items();
        let ghost rs = self.recs();
        proof {
            self.lemma_step();
            self.index.lemma_items();
            self.log.lemma_wf(MAGIC);
            log::lemma_dead_bound(rs);
            log::lemma_index(rs);
        }
        let all: Vec<(&Vec<u8>, &Slot)> = self.index.entries();
        let mut packed: Log = Log::create(MAGIC, self.capacity);
        let mut moved: SkipList<Vec<u8>, Slot> = SkipList::new(
            SkipListConfig { capacity: SkipListCapacity::Unbounded },
        );
        let mut i: usize = 0;
        proof {
            assert(items.take(0) =~= Seq::empty());
            assert(values_of(moved@) =~= log::kv_of(Seq::<Rec>::empty()));
            assert(values_of(ordered::map_of(items.take(0))) =~= Map::<Seq<u8>, Seq<u8>>::empty());
            log::lemma_dead_bound(Seq::<Rec>::empty());
            assert(log::index_of(Seq::<Rec>::empty()).dom() =~= Set::<Seq<u8>>::empty());
            lemma_some_live(log::index_of(rs), Seq::<Rec>::empty());
        }
        while i < all.len()
            invariant
                *self == *old(self),
                self.wf(),
                rs == self.recs(),
                items == self.index.items(),
                ordered::rising::<Vec<u8>, Slot>(items),
                skiplist::shows(all@, items),
                0 <= i <= all@.len(),
                packed.wf(MAGIC),
                packed.recs() == puts_of(items.take(i as int)),
                packed.image_view().len() >= self.capacity,
                moved.wf(),
                moved.config_view().capacity == SkipListCapacity::Unbounded,
                in_step(moved@, packed.recs()),
                log::kv_of(packed.recs()) == values_of(ordered::map_of(items.take(i as int))),
                log::dead_of(packed.recs()) == 0,
                log::encode_all(packed.recs()).len() == log::live_total(log::index_of(packed.recs())),
                sized_alike(log::index_of(rs), log::index_of(packed.recs())),
                log::encode_all(packed.recs()).len() <= log::encode_all(rs).len(),
                log::HEADER_SIZE + log::encode_all(rs).len() + 4 <= log::MAX_LOG,
                log::live_total(log::index_of(rs)) <= log::encode_all(rs).len(),
            decreases all@.len() - i,
        {
            let ghost n = i as int;
            let ghost a = packed.recs();
            let ghost k = items[n].0;
            let ghost v = items[n].1.value@;
            let ghost b = a.push(Rec::Put(k, v));
            proof {
                self.lemma_next_put(n, a);
                log::lemma_index(a);
                lemma_entries_fit(a);
                assert(values_of(moved@).dom() =~= moved@.dom());
                assert(all@[n].0@ == k && all@[n].1.value@ == v);
            }
            let key: Vec<u8> = all[i].0.duplicate();
            let value: Vec<u8> = all[i].1.value.duplicate();
            let size: u32 = (8 + key.len() + value.len()) as u32;
            let to: usize = packed.put(&key, &value, Ghost(MAGIC));
            let slot: Slot = Slot { value, meta: EntryMeta { offset: to as u64, record_size: size } };
            let ghost m = moved@;
            let ghost sl = slot;
            match moved.put(key, slot) {
                Ok(_) => {},
                Err(_) => {
                    assert(false);
                },
            }
            proof {
                assert(b.drop_last() =~= a);
                assert(b.take(a.len() as int) =~= a);
                log::lemma_index(b);
                assert(values_of(m.insert(k, sl)) =~= values_of(m).insert(k, sl.value@));
                assert(items.take(n + 1).drop_last() =~= items.take(n));
            }
            i = i + 1;
        }
        assert(items.take(i as int) =~= items);
        proof {
            lemma_puts_of(items);
        }
        self.log = packed;
        self.index = moved;
        self.dead_bytes = 0;
    }

    /// The next entry can be appended to the records of those before it.
    proof fn lemma_next_put(&self, n: int, a: Seq<Rec>)
        requires
            self.wf(),
            0 <= n < self.index.items().len(),
            ordered::rising::<Vec<u8>, Slot>(self.index.items()),
            log::kv_of(a) == values_of(ordered::map_of(self.index.items().take(n))),
            log::dead_of(a) == 0,
            log::encode_all(a).len() == log::live_total(log::index_of(a)),
            sized_alike(log::index_of(self.recs()), log::index_of(a)),
            log::live_total(log::index_of(self.recs())) <= log::encode_all(self.recs()).len(),
            log::HEADER_SIZE + log::encode_all(self.recs()).len() + 4 <= log::MAX_LOG,
        ensures
            ({
                let k = self.index.items()[n].0;
                let v = self.index.items()[n].1.value@;
                let b = a.push(Rec::Put(k, v));
                &&& 8 + k.len() + v.len() <= u32::MAX
                &&& log::HEADER_SIZE + log::encode_all(b).len() + 4 <= log::MAX_LOG
                &&& log::encode_all(b).len() == log::encode_all(a).len() + 8 + k.len() + v.len()
                &&& log::kv_of(b) == values_of(ordered::map_of(self.index.items().take(n + 1)))
                &&& log::dead_of(b) == 0
                &&& log::encode_all(b).len() == log::live_total(log::index_of(b))
                &&& sized_alike(log::index_of(self.recs()), log::index_of(b))
                &&& log::encode_all(b).len() <= log::encode_all(self.recs()).len()
            }),
    {
        let items = self.index.items();
        let rs = self.recs();
        let k = items[n].0;
        let v = items[n].1.value@;
        let r = Rec::Put(k, v);
        let b = a.push(r);
        assert(b.drop_last() =~= a);
        self.lemma_step();
        self.log.lemma_wf(MAGIC);
        log::lemma_index(rs);
        log::lemma_index(a);
        log::lemma_index(b);
        ordered::lemma_place::<Vec<u8>, Slot>(items, n);
        assert(self.index@.contains_key(k));
        assert(log::index_of(rs).contains_key(k));
        let i = choose|i: int| #[trigger] log::points_at(rs, k, i);
        assert(log::rec_ok(rs[i]));
        log::lemma_encode_len(r);
        let t = items.take(n);
        assert(ordered::rising::<Vec<u8>, Slot>(t)) by {
            assert forall|x: int, y: int| 0 <= x < y < t.len() implies <Vec<u8> as Key>::before(
                #[trigger] t[x].0,
                #[trigger] t[y].0,
            ) by {
                assert(<Vec<u8> as Key>::before(items[x].0, items[y].0));
            }
        }
        assert forall|x: int| 0 <= x < n implies <Vec<u8> as Key>::before(#[trigger] t[x].0, k) by {
            assert(<Vec<u8> as Key>::before(items[x].0, items[n].0));
        }
        ordered::lemma_insert::<Vec<u8>, Slot>(t, n, k, items[n].1);
        assert(t.insert(n, items[n]) =~= items.take(n + 1));
        let w = ordered::map_of(t);
        assert(values_of(w.insert(k, items[n].1)) =~= values_of(w).insert(k, v));
        assert(!log::kv_of(a).contains_key(k)) by {
            assert(values_of(w).dom() =~= w.dom());
        }
        log::lemma_dead_bound(b);
        lemma_some_live(log::index_of(rs), b);
    }

    /// The entries in key order.
    pub fn entries(&self) -> (r: Vec<(Vec<u8>, Vec<u8>)>)
        requires
            self.wf(),
        ensures
            maps::ascending(r@),
            maps::map_of(r@) == self@,
    {
        lists::entries(&self.index)
    }

    /// The entries in falling key order.
    pub fn entries_rev(&self) -> (r: Vec<(Vec<u8>, Vec<u8>)>)
        requires
            self.wf(),
        ensures
            maps::descending(r@),
            maps::map_of(r@) == self@,
    {
        lists::entries_rev(&self.index)
    }

    /// The entries with keys from `start` on and before `end`, in key order.
    pub fn range(&self, start: &Vec<u8>, end: &Vec<u8>) -> (r: Vec<(Vec<u8>, Vec<u8>)>)
        requires
            self.wf(),
        ensures
            maps::ascending(r@),
            maps::map_of(r@) == maps::between(self@, start@, Some(end@)),
    {
        lists::range(&self.index, start, end)
    }

    /// The entries with keys from `start` on and before `end`, in falling key order.
    pub fn range_rev(&self, start: &Vec<u8>, end: &Vec<u8>) -> (r: Vec<(Vec<u8>, Vec<u8>)>)
        requires
            self.wf(),
        ensures
            maps::descending(r@),
            maps::map_of(r@) == maps::between(self@, start@, Some(end@)),
    {
        lists::range_rev(&self.index, start, end)
    }

    /// The entry with the least key.
    pub fn first(&self) -> (r: Option<(Vec<u8>, Vec<u8>)>)
        requires
            self.wf(),
        ensures
            maps::is_first(self@, r),
    {
        lists::first(&self.index)
    }

    /// The entry with the greatest key.
    pub fn last(&self) -> (r: Option<(Vec<u8>, Vec<u8>)>)
        requires
            self.wf(),
        ensures
            maps::is_last(self@, r),
    {
        lists::last(&self.index)
    }
}

/// The length of an image that was just compacted.
pub open spec fn packed_len(rs: Seq<Rec>, capacity: int) -> int {
    let least = log::HEADER_SIZE + log::encode_all(rs).len() + 4;
    if least < capacity {
        capacity
    } else {
        least
    }
}

/// The keys of the second are among those of the first, with records of the same length.
pub open spec fn sized_alike(a: Map<Seq<u8>, (int, int)>, b: Map<Seq<u8>, (int, int)>) -> bool {
    forall|k: Seq<u8>| #[trigger] b.contains_key(k) ==> a.contains_key(k) && a[k].1 == b[k].1
}

/// Some of the live records take no more than all of them.
proof fn lemma_some_live(a: Map<Seq<u8>, (int, int)>, b: Seq<Rec>)
    requires
        a.dom().finite(),
        forall|k: Seq<u8>| #[trigger] a.contains_key(k) ==> a[k].1 >= 0,
        sized_alike(a, log::index_of(b)),
    ensures
        log::live_total(log::index_of(b)) <= log::live_total(a),
{
    log::lemma_index(b);
    log::lemma_live_part(a, log::index_of(b));
}

} // verus!
