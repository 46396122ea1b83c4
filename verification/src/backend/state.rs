//! A store that is chosen at run time: a tree on pages, a log with a hash index, or a list in
//! memory.

use crate::backend::traits;
use crate::backend::traits::{DurableStorage, OrderedReadBackend, ReadBackend, Storage, WriteBackend};
use crate::engine::btree_model;
use crate::engine::page;
use crate::engine::btree;
use crate::engine::btree::{BPlusTree, BPlusTreeConfig, BPlusTreeStats};
use crate::engine::log;
use crate::engine::maps;
use crate::engine::keydir::{KeyDir, KeyDirConfig, KeyDirStats};
use crate::engine::skiplist;
use crate::engine::skiplist::{SkipList, SkipListCapacity, SkipListConfig, SkipListStats};
use crate::error::StorageError;
use vstd::prelude::*;

verus! {

/// A list of bytes in memory.
pub type MemList = SkipList<Vec<u8>, Vec<u8>>;

/// Which store, and its settings.
#[derive(Clone, Copy, Debug)]
pub enum StateConfig {
    Ordered(BPlusTreeConfig),
    Unordered(KeyDirConfig),
    InMemory(SkipListConfig),
}

impl Default for StateConfig {
    fn default() -> (r: Self)
        ensures
            r == StateConfig::Ordered(btree::usual()),
    {
        StateConfig::Ordered(BPlusTreeConfig::default())
    }
}

/// The counters of the store that was chosen.
#[derive(Clone, Copy, Debug)]
pub enum StateStats {
    Ordered(BPlusTreeStats),
    Unordered(KeyDirStats),
    InMemory(SkipListStats),
}

/// The store that was chosen.
pub enum State {
    Ordered { backend: BPlusTree, config: StateConfig },
    Unordered { backend: KeyDir, config: StateConfig },
    InMemory { backend: MemList, config: StateConfig },
}

impl State {
    /// The bytes are those of a store with these settings, or of none that they could be taken
    /// for.
    pub open spec fn sound_image(config: StateConfig, image: Seq<u8>) -> bool {
        config is Ordered && BPlusTree::has_magic(image) ==> exists|m: Map<Seq<u8>, Seq<u8>>|
            BPlusTree::valid_image(image, m)
    }

    /// What bytes are opened as: the tree on their pages, the log of their records, or a new list.
    pub open spec fn opened(config: StateConfig, image: Seq<u8>, t: State) -> bool {
        &&& t.valid()
        &&& t.settings() == config
        &&& Self::keeps(config, image, t.map())
        &&& match t {
            State::Ordered { backend, .. } => backend.img() == BPlusTree::pages_of(image),
            State::Unordered { backend, .. } => backend.recs() == log::image_recs(image),
            State::InMemory { .. } => true,
        }
    }
}

impl Storage for State {
    type Stats = StateStats;

    type Config = StateConfig;

    open spec fn valid(&self) -> bool {
        match self {
            State::Ordered { backend, config } => backend.valid() && *config == StateConfig::Ordered(
                backend.settings(),
            ),
            State::Unordered { backend, config } => backend.valid() && *config == StateConfig::Unordered(
                backend.settings(),
            ),
            State::InMemory { backend, config } => backend.valid() && *config == StateConfig::InMemory(
                backend.settings(),
            ),
        }
    }

    open spec fn settings(&self) -> StateConfig {
        match self {
            State::Ordered { config, .. } => *config,
            State::Unordered { config, .. } => *config,
            State::InMemory { config, .. } => *config,
        }
    }

    open spec fn counters(&self) -> StateStats {
        match self {
            State::Ordered { backend, .. } => StateStats::Ordered(backend.counters()),
            State::Unordered { backend, .. } => StateStats::Unordered(backend.counters()),
            State::InMemory { backend, .. } => StateStats::InMemory(backend.counters()),
        }
    }

    fn stats(&self) -> (r: StateStats) {
        match self {
            State::Ordered { backend, .. } => StateStats::Ordered(Storage::stats(backend)),
            State::Unordered { backend, .. } => StateStats::Unordered(Storage::stats(backend)),
            State::InMemory { backend, .. } => StateStats::InMemory(Storage::stats(backend)),
        }
    }

    fn config(&self) -> (r: StateConfig) {
        match self {
            State::Ordered { config, .. } => *config,
            State::Unordered { config, .. } => *config,
            State::InMemory { config, .. } => *config,
        }
    }
}

impl DurableStorage for State {
    type Data = Map<Seq<u8>, Seq<u8>>;

    open spec fn data(&self) -> Map<Seq<u8>, Seq<u8>> {
        self.map()
    }

    open spec fn nothing() -> Map<Seq<u8>, Seq<u8>> {
        Map::empty()
    }

    open spec fn fresh(&self) -> bool {
        match self {
            State::Ordered { backend, .. } => backend.fresh(),
            State::Unordered { backend, .. } => backend.fresh(),
            State::InMemory { .. } => self.map() == Map::<Seq<u8>, Seq<u8>>::empty(),
        }
    }

    open spec fn feasible(config: StateConfig) -> bool {
        match config {
            StateConfig::Ordered(c) => BPlusTree::feasible(c),
            StateConfig::Unordered(c) => KeyDir::feasible(c),
            StateConfig::InMemory(c) => c.capacity matches SkipListCapacity::Bounded { max_entries } ==> max_entries
                <= skiplist::MAX_NODES,
        }
    }

    open spec fn durable(config: StateConfig) -> bool {
        !(config is InMemory)
    }

    /// What lives in memory alone starts with nothing, whatever the bytes.
    open spec fn keeps(config: StateConfig, image: Seq<u8>, data: Map<Seq<u8>, Seq<u8>>) -> bool {
        match config {
            StateConfig::Ordered(c) => BPlusTree::keeps(c, image, data),
            StateConfig::Unordered(c) => KeyDir::keeps(c, image, data),
            StateConfig::InMemory(_) => data == Map::<Seq<u8>, Seq<u8>>::empty(),
        }
    }

    /// What lives in memory alone needs no bytes.
    open spec fn opens(config: StateConfig, image: Seq<u8>) -> bool {
        match config {
            StateConfig::Ordered(c) => BPlusTree::opens(c, image),
            StateConfig::Unordered(c) => KeyDir::opens(c, image),
            StateConfig::InMemory(_) => State::feasible(config),
        }
    }

    open spec fn oversized(config: StateConfig, image: Seq<u8>) -> bool {
        match config {
            StateConfig::Ordered(c) => BPlusTree::oversized(c, image),
            StateConfig::Unordered(c) => KeyDir::oversized(c, image),
            StateConfig::InMemory(_) => !State::feasible(config),
        }
    }

    proof fn keeps_one(config: StateConfig, image: Seq<u8>, a: Map<Seq<u8>, Seq<u8>>, b: Map<Seq<u8>, Seq<u8>>) {
        match config {
            StateConfig::Ordered(c) => BPlusTree::keeps_one(c, image, a, b),
            StateConfig::Unordered(c) => KeyDir::keeps_one(c, image, a, b),
            StateConfig::InMemory(_) => {},
        }
    }

    open spec fn compactable(&self) -> bool {
        match self {
            State::Ordered { backend, .. } => backend.compactable(),
            State::Unordered { backend, .. } => backend.compactable(),
            State::InMemory { .. } => true,
        }
    }

    /// The backend was compacted. What lives in memory alone has nothing to give up.
    open spec fn compacted(&self, to: &Self) -> bool {
        match (self, to) {
            (State::Ordered { backend: a, .. }, State::Ordered { backend: b, .. }) => a.compacted(b),
            (State::Unordered { backend: a, .. }, State::Unordered { backend: b, .. }) => a.compacted(b),
            (State::InMemory { .. }, State::InMemory { .. }) => *to == *self,
            _ => false,
        }
    }

    fn create(config: StateConfig) -> (r: Result<Self, StorageError>) {
        match config {
            StateConfig::Ordered(c) => match <BPlusTree as DurableStorage>::create(c) {
                Ok(backend) => Ok(State::Ordered { backend, config }),
                Err(e) => Err(e),
            },
            StateConfig::Unordered(c) => match <KeyDir as DurableStorage>::create(c) {
                Ok(backend) => Ok(State::Unordered { backend, config }),
                Err(e) => Err(e),
            },
            StateConfig::InMemory(c) => State::new_list(c),
        }
    }

    fn open(image: Vec<u8>, config: StateConfig) -> (r: Result<Self, StorageError>)
        ensures
            State::sound_image(config, image@) ==> (r matches Ok(t) ==> State::opened(config, image@, t)),
    {
        proof {
            if exists|data: Map<Seq<u8>, Seq<u8>>| BPlusTree::valid_image(image@, data) {
                let data = choose|data: Map<Seq<u8>, Seq<u8>>| BPlusTree::valid_image(image@, data);
                BPlusTree::lemma_begins(image@, data);
            }
        }
        match config {
            StateConfig::Ordered(c) => match BPlusTree::open(&image, c) {
                Ok(backend) => {
                    let t = State::Ordered { backend, config };
                    proof {
                        if State::sound_image(config, image@) {
                            let m = choose|m: Map<Seq<u8>, Seq<u8>>| BPlusTree::valid_image(image@, m);
                            assert(BPlusTree::valid_image(image@, m));
                            assert(State::keeps(config, image@, t.map()));
                        }
                    }
                    Ok(t)
                },
                Err(e) => Err(e),
            },
            StateConfig::Unordered(c) => match KeyDir::open(image, c) {
                Ok(backend) => Ok(State::Unordered { backend, config }),
                Err(e) => Err(e),
            },
            StateConfig::InMemory(c) => State::new_list(c),
        }
    }

    fn compact(&mut self) -> (r: Result<(), StorageError>) {
        match self {
            State::Ordered { backend, .. } => DurableStorage::compact(backend),
            State::Unordered { backend, .. } => DurableStorage::compact(backend),
            State::InMemory { .. } => Ok(()),
        }
    }

    /// The bytes that keep the store; none where it lives in memory alone.
    fn image(&self) -> (r: Vec<u8>)
        ensures
            self is InMemory ==> r@ == Seq::<u8>::empty(),
    {
        match self {
            State::Ordered { backend, .. } => DurableStorage::image(backend),
            State::Unordered { backend, .. } => DurableStorage::image(backend),
            State::InMemory { .. } => Vec::new(),
        }
    }
}

impl State {
    /// Whether the store takes an entry of these sizes.
    pub fn accepts(&self, key: &Vec<u8>, value: &Vec<u8>) -> (r: bool)
        requires
            self.valid(),
        ensures
            r == State::takes(self.settings(), key@, value@),
    {
        assert(key@.len() == key.len() && value@.len() == value.len());
        match self {
            State::Ordered { .. } => key.len() <= btree_model::MAX_KEY && (value.len() as u64) < page::OVFL_FLAG as u64,
            State::Unordered { .. } => {
                let most: u64 = u32::MAX as u64 - 8;
                key.len() as u64 <= most && value.len() as u64 <= most - key.len() as u64
            },
            State::InMemory { .. } => true,
        }
    }

    fn new_list(c: SkipListConfig) -> (r: Result<State, StorageError>)
        ensures
            match r {
                Ok(t) => {
                    &&& State::feasible(StateConfig::InMemory(c))
                    &&& t.valid()
                    &&& t.settings() == StateConfig::InMemory(c)
                    &&& t.map() == Map::<Seq<u8>, Seq<u8>>::empty()
                },
                Err(e) => !State::feasible(StateConfig::InMemory(c)) && e == StorageError::StorageFull,
            },
    {
        match c.capacity {
            SkipListCapacity::Bounded { max_entries } => {
                if max_entries > skiplist::MAX_NODES {
                    return Err(StorageError::StorageFull);
                }
            },
            SkipListCapacity::Unbounded => {},
        }
        let backend: MemList = SkipList::new(c);
        let t = State::InMemory { backend, config: StateConfig::InMemory(c) };
        assert(t.map() =~= Map::<Seq<u8>, Seq<u8>>::empty());
        Ok(t)
    }
}

impl ReadBackend for State {
    open spec fn map(&self) -> Map<Seq<u8>, Seq<u8>> {
        match self {
            State::Ordered { backend, .. } => backend.map(),
            State::Unordered { backend, .. } => backend.map(),
            State::InMemory { backend, .. } => backend.map(),
        }
    }

    open spec fn in_order(&self) -> bool {
        !(self is Unordered)
    }

    fn get(&self, key: &Vec<u8>) -> (r: Option<Vec<u8>>) {
        match self {
            State::Ordered { backend, .. } => ReadBackend::get(backend, key),
            State::Unordered { backend, .. } => ReadBackend::get(backend, key),
            State::InMemory { backend, .. } => ReadBackend::get(backend, key),
        }
    }

    fn contains(&self, key: &Vec<u8>) -> (r: bool) {
        match self {
            State::Ordered { backend, .. } => ReadBackend::contains(backend, key),
            State::Unordered { backend, .. } => ReadBackend::contains(backend, key),
            State::InMemory { backend, .. } => ReadBackend::contains(backend, key),
        }
    }

    fn keys(&self) -> (r: Vec<Vec<u8>>) {
        match self {
            State::Ordered { backend, .. } => ReadBackend::keys(backend),
            State::Unordered { backend, .. } => ReadBackend::keys(backend),
            State::InMemory { backend, .. } => ReadBackend::keys(backend),
        }
    }

    fn values(&self) -> (r: Vec<Vec<u8>>) {
        let ghost m = self.map();
        match self {
            State::Ordered { backend, .. } => {
                assert(m == backend.map());
                ReadBackend::values(backend)
            },
            State::Unordered { backend, .. } => {
                assert(m == backend.map());
                ReadBackend::values(backend)
            },
            State::InMemory { backend, .. } => {
                assert(m == backend.map());
                ReadBackend::values(backend)
            },
        }
    }

    fn entries(&self) -> (r: Vec<(Vec<u8>, Vec<u8>)>) {
        match self {
            State::Ordered { backend, .. } => ReadBackend::entries(backend),
            State::Unordered { backend, .. } => ReadBackend::entries(backend),
            State::InMemory { backend, .. } => ReadBackend::entries(backend),
        }
    }

    fn size(&self) -> (r: usize) {
        match self {
            State::Ordered { backend, .. } => ReadBackend::size(backend),
            State::Unordered { backend, .. } => ReadBackend::size(backend),
            State::InMemory { backend, .. } => ReadBackend::size(backend),
        }
    }
}

impl OrderedReadBackend for State {
    fn range(&self, start: &Vec<u8>, end: &Vec<u8>) -> (r: Vec<(Vec<u8>, Vec<u8>)>) {
        match self {
            State::Ordered { backend, .. } => OrderedReadBackend::range(backend, start, end),
            State::Unordered { backend, .. } => OrderedReadBackend::range(backend, start, end),
            State::InMemory { backend, .. } => OrderedReadBackend::range(backend, start, end),
        }
    }

    fn first(&self) -> (r: Option<(Vec<u8>, Vec<u8>)>) {
        match self {
            State::Ordered { backend, .. } => OrderedReadBackend::first(backend),
            State::Unordered { backend, .. } => OrderedReadBackend::first(backend),
            State::InMemory { backend, .. } => OrderedReadBackend::first(backend),
        }
    }

    fn last(&self) -> (r: Option<(Vec<u8>, Vec<u8>)>) {
        match self {
            State::Ordered { backend, .. } => OrderedReadBackend::last(backend),
            State::Unordered { backend, .. } => OrderedReadBackend::last(backend),
            State::InMemory { backend, .. } => OrderedReadBackend::last(backend),
        }
    }

    fn entries_rev(&self) -> (r: Vec<(Vec<u8>, Vec<u8>)>) {
        match self {
            State::Ordered { backend, .. } => OrderedReadBackend::entries_rev(backend),
            State::Unordered { backend, .. } => OrderedReadBackend::entries_rev(backend),
            State::InMemory { backend, .. } => OrderedReadBackend::entries_rev(backend),
        }
    }

    fn range_rev(&self, start: &Vec<u8>, end: &Vec<u8>) -> (r: Vec<(Vec<u8>, Vec<u8>)>) {
        match self {
            State::Ordered { backend, .. } => OrderedReadBackend::range_rev(backend, start, end),
            State::Unordered { backend, .. } => OrderedReadBackend::range_rev(backend, start, end),
            State::InMemory { backend, .. } => OrderedReadBackend::range_rev(backend, start, end),
        }
    }
}

impl WriteBackend for State {
    open spec fn takes(config: StateConfig, key: Seq<u8>, value: Seq<u8>) -> bool {
        match config {
            StateConfig::Ordered(c) => BPlusTree::takes(c, key, value),
            StateConfig::Unordered(c) => KeyDir::takes(c, key, value),
            StateConfig::InMemory(c) => MemList::takes(c, key, value),
        }
    }

    open spec fn takes_key(config: StateConfig, key: Seq<u8>) -> bool {
        match config {
            StateConfig::Ordered(c) => BPlusTree::takes_key(c, key),
            StateConfig::Unordered(c) => KeyDir::takes_key(c, key),
            StateConfig::InMemory(c) => MemList::takes_key(c, key),
        }
    }

    open spec fn room(&self, key: Seq<u8>, value: Seq<u8>) -> bool {
        match self {
            State::Ordered { backend, .. } => backend.room(key, value),
            State::Unordered { backend, .. } => backend.room(key, value),
            State::InMemory { backend, .. } => backend.room(key, value),
        }
    }

    open spec fn can_delete(&self, key: Seq<u8>) -> bool {
        match self {
            State::Ordered { backend, .. } => backend.can_delete(key),
            State::Unordered { backend, .. } => backend.can_delete(key),
            State::InMemory { backend, .. } => backend.can_delete(key),
        }
    }

    /// The backend became what a put makes of it.
    open spec fn put_makes(&self, to: &Self, key: Seq<u8>, value: Seq<u8>) -> bool {
        match (self, to) {
            (State::Ordered { backend: a, .. }, State::Ordered { backend: b, .. }) => a.put_makes(b, key, value),
            (State::Unordered { backend: a, .. }, State::Unordered { backend: b, .. }) => a.put_makes(b, key, value),
            (State::InMemory { backend: a, .. }, State::InMemory { backend: b, .. }) => a.put_makes(b, key, value),
            _ => false,
        }
    }

    /// The backend became what a delete makes of it.
    open spec fn delete_makes(&self, to: &Self, key: Seq<u8>) -> bool {
        match (self, to) {
            (State::Ordered { backend: a, .. }, State::Ordered { backend: b, .. }) => a.delete_makes(b, key),
            (State::Unordered { backend: a, .. }, State::Unordered { backend: b, .. }) => a.delete_makes(b, key),
            (State::InMemory { backend: a, .. }, State::InMemory { backend: b, .. }) => a.delete_makes(b, key),
            _ => false,
        }
    }

    open spec fn buildable(&self, items: Seq<(Vec<u8>, Vec<u8>)>) -> bool {
        match self {
            State::Ordered { backend, .. } => backend.buildable(items),
            State::Unordered { backend, .. } => backend.buildable(items),
            State::InMemory { backend, .. } => backend.buildable(items),
        }
    }

    open spec fn room_for_all(&self, items: Seq<(Vec<u8>, Vec<u8>)>) -> bool {
        match self {
            State::Ordered { backend, .. } => backend.room_for_all(items),
            State::Unordered { backend, .. } => backend.room_for_all(items),
            State::InMemory { backend, .. } => backend.room_for_all(items),
        }
    }

    open spec fn can_delete_all(&self, keys: Seq<Vec<u8>>) -> bool {
        match self {
            State::Ordered { backend, .. } => backend.can_delete_all(keys),
            State::Unordered { backend, .. } => backend.can_delete_all(keys),
            State::InMemory { backend, .. } => backend.can_delete_all(keys),
        }
    }

    fn put(&mut self, key: Vec<u8>, value: Vec<u8>) -> (r: Result<(), StorageError>) {
        match self {
            State::Ordered { backend, .. } => WriteBackend::put(backend, key, value),
            State::Unordered { backend, .. } => WriteBackend::put(backend, key, value),
            State::InMemory { backend, .. } => WriteBackend::put(backend, key, value),
        }
    }

    fn put_if_absent(&mut self, key: &Vec<u8>, value: Vec<u8>) -> (r: Result<bool, StorageError>) {
        match self {
            State::Ordered { backend, .. } => WriteBackend::put_if_absent(backend, key, value),
            State::Unordered { backend, .. } => WriteBackend::put_if_absent(backend, key, value),
            State::InMemory { backend, .. } => WriteBackend::put_if_absent(backend, key, value),
        }
    }

    fn replace(&mut self, key: &Vec<u8>, value: Vec<u8>) -> (r: Result<Option<Vec<u8>>, StorageError>) {
        match self {
            State::Ordered { backend, .. } => WriteBackend::replace(backend, key, value),
            State::Unordered { backend, .. } => WriteBackend::replace(backend, key, value),
            State::InMemory { backend, .. } => WriteBackend::replace(backend, key, value),
        }
    }

    fn bulk_put(&mut self, items: Vec<(Vec<u8>, Vec<u8>)>) -> (r: Result<(), StorageError>) {
        match self {
            State::Ordered { backend, .. } => WriteBackend::bulk_put(backend, items),
            State::Unordered { backend, .. } => WriteBackend::bulk_put(backend, items),
            State::InMemory { backend, .. } => WriteBackend::bulk_put(backend, items),
        }
    }

    fn bulk_put_sorted(&mut self, items: Vec<(Vec<u8>, Vec<u8>)>) -> (r: Result<(), StorageError>) {
        match self {
            State::Ordered { backend, .. } => WriteBackend::bulk_put_sorted(backend, items),
            State::Unordered { backend, .. } => WriteBackend::bulk_put_sorted(backend, items),
            State::InMemory { backend, .. } => WriteBackend::bulk_put_sorted(backend, items),
        }
    }

    fn delete(&mut self, key: &Vec<u8>) -> (r: Result<bool, StorageError>) {
        match self {
            State::Ordered { backend, .. } => WriteBackend::delete(backend, key),
            State::Unordered { backend, .. } => WriteBackend::delete(backend, key),
            State::InMemory { backend, .. } => WriteBackend::delete(backend, key),
        }
    }

    fn bulk_delete(&mut self, keys: &Vec<Vec<u8>>) -> (r: Result<usize, StorageError>) {
        let ghost m = self.map();
        match self {
            State::Ordered { backend, .. } => {
                assert(m == backend.map());
                WriteBackend::bulk_delete(backend, keys)
            },
            State::Unordered { backend, .. } => {
                assert(m == backend.map());
                WriteBackend::bulk_delete(backend, keys)
            },
            State::InMemory { backend, .. } => {
                assert(m == backend.map());
                WriteBackend::bulk_delete(backend, keys)
            },
        }
    }

    fn bulk_delete_sorted(&mut self, keys: &Vec<Vec<u8>>) -> (r: Result<usize, StorageError>) {
        let ghost m = self.map();
        match self {
            State::Ordered { backend, .. } => {
                assert(m == backend.map());
                WriteBackend::bulk_delete_sorted(backend, keys)
            },
            State::Unordered { backend, .. } => {
                assert(m == backend.map());
                WriteBackend::bulk_delete_sorted(backend, keys)
            },
            State::InMemory { backend, .. } => {
                assert(m == backend.map());
                WriteBackend::bulk_delete_sorted(backend, keys)
            },
        }
    }

    fn update<F: FnOnce(Option<Vec<u8>>) -> Option<Vec<u8>>>(&mut self, key: &Vec<u8>, f: F) -> (r: Result<
        (),
        StorageError,
    >) {
        let ghost m = self.map();
        match self {
            State::Ordered { backend, .. } => {
                assert(m == backend.map());
                WriteBackend::update(backend, key, f)
            },
            State::Unordered { backend, .. } => {
                assert(m == backend.map());
                WriteBackend::update(backend, key, f)
            },
            State::InMemory { backend, .. } => {
                assert(m == backend.map());
                WriteBackend::update(backend, key, f)
            },
        }
    }

    fn clear(&mut self) -> (r: Result<(), StorageError>) {
        match self {
            State::Ordered { backend, .. } => WriteBackend::clear(backend),
            State::Unordered { backend, .. } => WriteBackend::clear(backend),
            State::InMemory { backend, .. } => WriteBackend::clear(backend),
        }
    }
}

/// A new store has room for any entry that it takes and memory can hold, unless its settings allow
/// none.
pub proof fn new_store_has_room(s: State, key: Seq<u8>, value: Seq<u8>)
    requires
        s.valid(),
        s.fresh(),
        s.map() == Map::<Seq<u8>, Seq<u8>>::empty(),
        State::takes(s.settings(), key, value),
        key.len() + value.len() + 16 <= log::MAX_LOG,
        s.settings() matches StateConfig::InMemory(c) ==> skiplist::limit(c) > 0,
    ensures
        s.room(key, value),
{
    match s {
        State::Ordered { backend, .. } => {
            assert(backend@.dom() =~= Set::<Seq<u8>>::empty());
        },
        State::Unordered { backend, .. } => {},
        State::InMemory { backend, .. } => {
            assert(backend.map().dom() =~= backend@.dom());
            assert(backend@.dom() =~= Set::<Seq<u8>>::empty());
        },
    }
}

/// Stores opened from the same bytes have the same entries and the same room.
pub proof fn bytes_determine_room(config: StateConfig, image: Seq<u8>, a: State, b: State)
    requires
        State::opened(config, image, a),
        State::opened(config, image, b),
    ensures
        a.map() == b.map(),
        forall|key: Seq<u8>, value: Seq<u8>| #[trigger] a.room(key, value) == b.room(key, value),
        forall|key: Seq<u8>| #[trigger] a.can_delete(key) == b.can_delete(key),
{
    State::keeps_one(config, image, a.map(), b.map());
    match (a, b) {
        (State::Ordered { backend: x, .. }, State::Ordered { backend: y, .. }) => {
            BPlusTree::pages_determine_tree(x, y);
        },
        (State::Unordered { .. }, State::Unordered { .. }) => {},
        (State::InMemory { backend: x, .. }, State::InMemory { backend: y, .. }) => {
            assert(x@.dom() =~= x.map().dom());
            assert(y@.dom() =~= y.map().dom());
        },
        _ => {},
    }
}

/// Entries add no more keys than there are of them.
proof fn lemma_put_all_len(m: Map<Seq<u8>, Seq<u8>>, items: Seq<(Vec<u8>, Vec<u8>)>)
    requires
        m.dom().finite(),
    ensures
        maps::put_all(m, items).dom().finite(),
        maps::put_all(m, items).len() <= m.len() + items.len(),
    decreases items.len(),
{
    if items.len() > 0 {
        lemma_put_all_len(m, items.drop_last());
    }
}

/// A list with as many places as there are entries takes them one after the other.
pub proof fn list_room_lasts(s: State, items: Seq<(Vec<u8>, Vec<u8>)>)
    requires
        s.valid(),
        s.settings() matches StateConfig::InMemory(c) && s.map().len() + items.len() <= skiplist::limit(c),
    ensures
        traits::room_in_turn(s, items),
{
    lemma_finite_map(s);
    assert forall|t: State, n: int|
        0 <= n < items.len() && #[trigger] traits::after_puts(s, t, items.take(n)) implies t.room(
        items[n].0@,
        items[n].1@,
    ) by {
        traits::puts_leave_what_was_put(s, t, items.take(n));
        lemma_put_all_len(s.map(), items.take(n));
        match t {
            State::InMemory { backend, .. } => {
                assert(backend.map().dom() =~= backend@.dom());
            },
            _ => {},
        }
    }
}

proof fn lemma_finite_map(s: State)
    requires
        s.valid(),
    ensures
        s.map().dom().finite(),
{
    match s {
        State::Ordered { backend, .. } => {
            backend.lemma_finite();
        },
        State::Unordered { backend, .. } => {
            backend.lemma_image();
        },
        State::InMemory { backend, .. } => {
            backend.lemma_items();
            assert(backend.map().dom() =~= backend@.dom());
        },
    }
}

/// Bytes of the records of entries.
pub open spec fn records_len(items: Seq<(Vec<u8>, Vec<u8>)>) -> int
    decreases items.len(),
{
    if items.len() == 0 {
        0
    } else {
        records_len(items.drop_last()) + 8 + items.last().0@.len() + items.last().1@.len()
    }
}

/// A log that took entries is no longer than with all their records.
proof fn lemma_log_grows(s: State, t: State, items: Seq<(Vec<u8>, Vec<u8>)>)
    requires
        s.valid(),
        s is Unordered,
        traits::after_puts(s, t, items),
        forall|i: int| 0 <= i < items.len() ==> State::takes(s.settings(), (#[trigger] items[i]).0@, items[i].1@),
    ensures
        t.valid(),
        t is Unordered,
        t.settings() == s.settings(),
        log::encode_all(t->Unordered_backend.recs()).len() <= log::encode_all(s->Unordered_backend.recs()).len()
            + records_len(items),
    decreases items.len(),
{
    if items.len() > 0 {
        let u = choose|u: State|
            traits::after_puts(s, u, items.drop_last()) && #[trigger] traits::after_put(
                u,
                t,
                items.last().0@,
                items.last().1@,
            );
        assert forall|i: int| 0 <= i < items.drop_last().len() implies State::takes(
            s.settings(),
            (#[trigger] items.drop_last()[i]).0@,
            items.drop_last()[i].1@,
        ) by {
            assert(items.drop_last()[i] == items[i]);
        }
        lemma_log_grows(s, u, items.drop_last());
        let k = u->Unordered_backend;
        let r = log::Rec::Put(items.last().0@, items.last().1@);
        assert(State::takes(s.settings(), items[items.len() - 1].0@, items[items.len() - 1].1@));
        k.lemma_image();
        log::lemma_encode_len(r);
        assert forall|i: int| 0 <= i < k.recs().push(r).len() implies log::rec_ok(#[trigger] k.recs().push(r)[i]) by {
            if i < k.recs().len() {
                assert(k.recs().push(r)[i] == k.recs()[i]);
            }
        }
        log::lemma_settled(k.config_view().compaction_ratio, k.recs(), r);
    }
}

/// A log that has bytes left for the records of entries takes them one after the other.
pub proof fn log_room_lasts(s: State, items: Seq<(Vec<u8>, Vec<u8>)>)
    requires
        s.valid(),
        s is Unordered,
        forall|i: int| 0 <= i < items.len() ==> State::takes(s.settings(), (#[trigger] items[i]).0@, items[i].1@),
        log::HEADER_SIZE + log::encode_all(s->Unordered_backend.recs()).len() + records_len(items) + 4 <= log::MAX_LOG,
    ensures
        traits::room_in_turn(s, items),
{
    assert forall|t: State, n: int|
        0 <= n < items.len() && #[trigger] traits::after_puts(s, t, items.take(n)) implies t.room(
        items[n].0@,
        items[n].1@,
    ) by {
        assert forall|i: int| 0 <= i < items.take(n).len() implies State::takes(
            s.settings(),
            (#[trigger] items.take(n)[i]).0@,
            items.take(n)[i].1@,
        ) by {
            assert(items.take(n)[i] == items[i]);
        }
        lemma_log_grows(s, t, items.take(n));
        lemma_records_len(items, n);
    }
}

/// The first records and the next take no more bytes than all.
proof fn lemma_records_len(items: Seq<(Vec<u8>, Vec<u8>)>, n: int)
    requires
        0 <= n < items.len(),
    ensures
        records_len(items.take(n)) + 8 + items[n].0@.len() + items[n].1@.len() <= records_len(items),
    decreases items.len(),
{
    let front = items.drop_last();
    if n == items.len() - 1 {
        assert(items.take(n) =~= front);
    } else {
        assert(items.take(n) =~= front.take(n));
        assert(front[n] == items[n]);
        lemma_records_len(front, n);
    }
}

} // verus!
