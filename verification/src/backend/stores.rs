//! The stores as backends.

use crate::backend::traits;
use crate::backend::traits::{DurableStorage, OrderedReadBackend, ReadBackend, Storage, WriteBackend};
use crate::engine::btree;
use crate::engine::btree::{BPlusTree, BPlusTreeConfig, BPlusTreeStats};
use crate::engine::btree_model;
use crate::engine::keydir;
use crate::engine::keydir::{KeyDir, KeyDirConfig, KeyDirStats};
use crate::engine::lists;
use crate::engine::log;
use crate::engine::maps;
use crate::engine::ordered;
use crate::engine::page;
use crate::engine::skiplist;
use crate::engine::skiplist::{SkipList, SkipListConfig, SkipListStats};
use crate::error::StorageError;
use crate::utils::key::Key;
use crate::utils::lex;
use vstd::prelude::*;

verus! {

/// Rising keys that are those of the map list it.
pub proof fn lemma_lists_rising(m: Map<Seq<u8>, Seq<u8>>, keys: Seq<Vec<u8>>)
    requires
        forall|i: int, j: int| 0 <= i < j < keys.len() ==> lex::lt(#[trigger] keys[i]@, #[trigger] keys[j]@),
        forall|k: Seq<u8>| #[trigger]
            m.contains_key(k) <==> exists|i: int| 0 <= i < keys.len() && #[trigger] keys[i]@ == k,
    ensures
        maps::lists_keys(m, keys),
        maps::rising(keys),
{
    lex::order_laws();
    assert forall|i: int, j: int| 0 <= i < j < keys.len() implies #[trigger] keys[i]@ != #[trigger] keys[j]@ by {
        assert(lex::lt(keys[i]@, keys[j]@));
    }
    assert forall|i: int| 0 <= i < keys.len() implies m.contains_key(#[trigger] keys[i]@) by {
        assert(keys[i]@ == keys[i]@);
    }
    assert forall|k: Seq<u8>| #[trigger] m.contains_key(k) implies maps::among(keys, keys.len() as int, k) by {
        let i = choose|i: int| 0 <= i < keys.len() && #[trigger] keys[i]@ == k;
        assert(keys[i]@ == k);
    }
}

/// The values of rising entries go with their keys.
pub proof fn lemma_values(m: Map<Seq<u8>, Seq<u8>>, items: Seq<(Vec<u8>, Vec<u8>)>, values: Seq<Vec<u8>>)
    requires
        maps::ascending(items),
        maps::map_of(items) == m,
        items.len() == values.len(),
        forall|i: int| 0 <= i < values.len() ==> (#[trigger] values[i])@ == items[i].1@,
    ensures
        exists|keys: Seq<Vec<u8>>|
            maps::lists_keys(m, keys) && maps::rising(keys) && #[trigger] maps::values_under(m, keys, values),
{
    let keys = Seq::new(items.len(), |i: int| items[i].0);
    maps::lemma_distinct(items);
    maps::lemma_map_of(items);
    assert forall|i: int, j: int| 0 <= i < j < keys.len() implies lex::lt(#[trigger] keys[i]@, #[trigger] keys[j]@) by {
        assert(lex::lt(items[i].0@, items[j].0@));
    }
    assert forall|k: Seq<u8>| #[trigger]
        m.contains_key(k) <==> exists|i: int| 0 <= i < keys.len() && #[trigger] keys[i]@ == k by {
        if m.contains_key(k) {
            let i = choose|i: int| 0 <= i < items.len() && (#[trigger] items[i]).0@ == k;
            assert(keys[i]@ == k);
        }
        if exists|i: int| 0 <= i < keys.len() && #[trigger] keys[i]@ == k {
            let i = choose|i: int| 0 <= i < keys.len() && #[trigger] keys[i]@ == k;
            assert(items[i].0@ == k);
        }
    }
    lemma_lists_rising(m, keys);
    assert forall|i: int| 0 <= i < keys.len() implies (#[trigger] values[i])@ == m[keys[i]@] by {
        assert(maps::map_of(items)[items[i].0@] == items[i].1@);
    }
    assert(maps::values_under(m, keys, values));
}

// ---- the tree ---------------------------------------------------------------------------------

impl Storage for BPlusTree {
    type Stats = BPlusTreeStats;

    type Config = BPlusTreeConfig;

    open spec fn valid(&self) -> bool {
        self.wf()
    }

    open spec fn settings(&self) -> BPlusTreeConfig {
        self.config_view()
    }

    open spec fn counters(&self) -> BPlusTreeStats {
        self.stats_view()
    }

    fn stats(&self) -> (r: BPlusTreeStats) {
        BPlusTree::stats(self)
    }

    fn config(&self) -> (r: BPlusTreeConfig) {
        BPlusTree::config(self)
    }
}

impl DurableStorage for BPlusTree {
    type Data = Map<Seq<u8>, Seq<u8>>;

    open spec fn data(&self) -> Map<Seq<u8>, Seq<u8>> {
        self@
    }

    open spec fn nothing() -> Map<Seq<u8>, Seq<u8>> {
        Map::empty()
    }

    open spec fn fresh(&self) -> bool {
        self.page_count() == 2 && self.height() == 0
    }

    open spec fn feasible(config: BPlusTreeConfig) -> bool {
        config.initial_capacity_pages <= btree::MAX_PAGES
    }

    open spec fn durable(config: BPlusTreeConfig) -> bool {
        true
    }

    open spec fn keeps(config: BPlusTreeConfig, image: Seq<u8>, data: Map<Seq<u8>, Seq<u8>>) -> bool {
        BPlusTree::valid_image(image, data)
    }

    /// The bytes start as those of a tree do; what follows is not looked at.
    open spec fn opens(config: BPlusTreeConfig, image: Seq<u8>) -> bool {
        BPlusTree::has_magic(image)
    }

    open spec fn oversized(config: BPlusTreeConfig, image: Seq<u8>) -> bool {
        false
    }

    proof fn keeps_one(config: BPlusTreeConfig, image: Seq<u8>, a: Map<Seq<u8>, Seq<u8>>, b: Map<Seq<u8>, Seq<u8>>) {
        BPlusTree::lemma_one_map(image, a, b);
    }

    open spec fn compactable(&self) -> bool {
        self.rebuildable()
    }

    open spec fn compacted(&self, to: &Self) -> bool {
        self.repacked(to)
    }

    fn create(config: BPlusTreeConfig) -> (r: Result<Self, StorageError>) {
        BPlusTree::create(config)
    }

    fn open(image: Vec<u8>, config: BPlusTreeConfig) -> (r: Result<Self, StorageError>) {
        proof {
            if exists|data: Map<Seq<u8>, Seq<u8>>| BPlusTree::valid_image(image@, data) {
                let data = choose|data: Map<Seq<u8>, Seq<u8>>| BPlusTree::valid_image(image@, data);
                BPlusTree::lemma_begins(image@, data);
            }
        }
        BPlusTree::open(&image, config)
    }

    fn compact(&mut self) -> (r: Result<(), StorageError>) {
        BPlusTree::compact(self)
    }

    fn image(&self) -> (r: Vec<u8>) {
        BPlusTree::image(self)
    }
}

impl ReadBackend for BPlusTree {
    open spec fn map(&self) -> Map<Seq<u8>, Seq<u8>> {
        self@
    }

    open spec fn in_order(&self) -> bool {
        true
    }

    fn get(&self, key: &Vec<u8>) -> (r: Option<Vec<u8>>) {
        BPlusTree::get(self, key)
    }

    fn contains(&self, key: &Vec<u8>) -> (r: bool) {
        BPlusTree::contains(self, key)
    }

    fn keys(&self) -> (r: Vec<Vec<u8>>) {
        let r: Vec<Vec<u8>> = BPlusTree::keys(self);
        proof {
            lemma_lists_rising(self@, r@);
        }
        r
    }

    fn values(&self) -> (r: Vec<Vec<u8>>) {
        let r: Vec<Vec<u8>> = BPlusTree::values(self);
        proof {
            let items = choose|items: Seq<(Vec<u8>, Vec<u8>)>| #[trigger]
                maps::ascending(items) && maps::map_of(items) == self@ && items.len() == r@.len() && forall|i: int|
                    0 <= i < r@.len() ==> (#[trigger] r@[i])@ == items[i].1@;
            lemma_values(self@, items, r@);
            let keys = choose|keys: Seq<Vec<u8>>|
                maps::lists_keys(self@, keys) && maps::rising(keys) && #[trigger] maps::values_under(self@, keys, r@);
            assert(maps::values_under(self.map(), keys, r@));
        }
        r
    }

    fn entries(&self) -> (r: Vec<(Vec<u8>, Vec<u8>)>) {
        let r: Vec<(Vec<u8>, Vec<u8>)> = BPlusTree::entries(self);
        proof {
            maps::lemma_distinct(r@);
        }
        r
    }

    fn size(&self) -> (r: usize) {
        let r: usize = BPlusTree::size(self);
        proof {
            self.lemma_finite();
        }
        r
    }
}

impl OrderedReadBackend for BPlusTree {
    fn range(&self, start: &Vec<u8>, end: &Vec<u8>) -> (r: Vec<(Vec<u8>, Vec<u8>)>) {
        BPlusTree::range(self, start, end)
    }

    fn first(&self) -> (r: Option<(Vec<u8>, Vec<u8>)>) {
        BPlusTree::first(self)
    }

    fn last(&self) -> (r: Option<(Vec<u8>, Vec<u8>)>) {
        BPlusTree::last(self)
    }

    fn entries_rev(&self) -> (r: Vec<(Vec<u8>, Vec<u8>)>) {
        BPlusTree::entries_rev(self)
    }

    fn range_rev(&self, start: &Vec<u8>, end: &Vec<u8>) -> (r: Vec<(Vec<u8>, Vec<u8>)>) {
        BPlusTree::range_rev(self, start, end)
    }
}

/// What is left when the keys are gone, said key by key.
proof fn lemma_left(before: Map<Seq<u8>, Seq<u8>>, after: Map<Seq<u8>, Seq<u8>>, keys: Seq<Vec<u8>>)
    requires
        forall|k: Seq<u8>|
            #![trigger after.contains_key(k)]
            after.contains_key(k) == (before.contains_key(k) && !maps::among(keys, keys.len() as int, k)) && (
            after.contains_key(k) ==> after[k] == before[k]),
    ensures
        after == maps::without(before, keys, keys.len() as int),
{
    let w = maps::without(before, keys, keys.len() as int);
    assert forall|k: Seq<u8>| #[trigger] w.contains_key(k) == after.contains_key(k) by {}
    assert(after =~= w);
}

impl WriteBackend for BPlusTree {
    open spec fn takes(config: BPlusTreeConfig, key: Seq<u8>, value: Seq<u8>) -> bool {
        key.len() <= btree_model::MAX_KEY && value.len() < page::OVFL_FLAG
    }

    open spec fn takes_key(config: BPlusTreeConfig, key: Seq<u8>) -> bool {
        key.len() <= btree_model::MAX_KEY
    }

    open spec fn room(&self, key: Seq<u8>, value: Seq<u8>) -> bool {
        self.has_room(value.len() as int)
    }

    open spec fn can_delete(&self, key: Seq<u8>) -> bool {
        true
    }

    open spec fn put_makes(&self, to: &Self, key: Seq<u8>, value: Seq<u8>) -> bool {
        self.wrote(to, key, value)
    }

    open spec fn delete_makes(&self, to: &Self, key: Seq<u8>) -> bool {
        if self@.contains_key(key) {
            self.dropped(to, key)
        } else {
            *to == *self
        }
    }

    open spec fn buildable(&self, items: Seq<(Vec<u8>, Vec<u8>)>) -> bool {
        btree::build_room(items)
    }

    /// A tree without entries is built from rising ones at once. Otherwise each entry finds room
    /// once those before it are put.
    open spec fn room_for_all(&self, items: Seq<(Vec<u8>, Vec<u8>)>) -> bool {
        if self@.len() == 0 && maps::ascending(items) {
            btree::build_room(items)
        } else {
            forall|t: BPlusTree, n: int|
                0 <= n < items.len() && #[trigger] self.put_through(&t, items.take(n)) ==> t.has_room(
                    items[n].1@.len() as int,
                )
        }
    }

    open spec fn can_delete_all(&self, keys: Seq<Vec<u8>>) -> bool {
        true
    }

    fn put(&mut self, key: Vec<u8>, value: Vec<u8>) -> (r: Result<(), StorageError>) {
        BPlusTree::put(self, &key, &value)
    }

    fn put_if_absent(&mut self, key: &Vec<u8>, value: Vec<u8>) -> (r: Result<bool, StorageError>) {
        BPlusTree::put_if_absent(self, key, &value)
    }

    fn replace(&mut self, key: &Vec<u8>, value: Vec<u8>) -> (r: Result<Option<Vec<u8>>, StorageError>) {
        BPlusTree::replace(self, key, &value)
    }

    fn bulk_put(&mut self, items: Vec<(Vec<u8>, Vec<u8>)>) -> (r: Result<(), StorageError>) {
        proof {
            assert forall|i: int| 0 <= i < items@.len() implies (#[trigger] items@[i]).0@.len() <= btree_model::MAX_KEY
                && items@[i].1@.len() < page::OVFL_FLAG by {
                assert(Self::takes(self.settings(), items@[i].0@, items@[i].1@));
            }
        }
        let r = BPlusTree::bulk_put(self, &items);
        proof {
            if r is Err {
                let n = choose|n: int|
                    0 <= n < items@.len() && self@ == maps::put_all(old(self)@, #[trigger] items@.take(n))
                        && !self.has_room(items@[n].1@.len() as int);
                assert(self.map() == maps::put_all(old(self).map(), items@.take(n)));
            }
        }
        r
    }

    fn bulk_put_sorted(&mut self, items: Vec<(Vec<u8>, Vec<u8>)>) -> (r: Result<(), StorageError>) {
        proof {
            assert forall|i: int| 0 <= i < items@.len() implies (#[trigger] items@[i]).0@.len() <= btree_model::MAX_KEY
                && items@[i].1@.len() < page::OVFL_FLAG by {
                assert(Self::takes(self.settings(), items@[i].0@, items@[i].1@));
            }
        }
        proof {
            self.lemma_finite();
            traits::lemma_empty(self.map());
        }
        let r = BPlusTree::bulk_put_sorted(self, &items);
        proof {
            if r is Err && !(old(self)@.len() == 0 && maps::ascending(items@)) {
                let n = choose|n: int|
                    0 <= n < items@.len() && self@ == maps::put_all(old(self)@, #[trigger] items@.take(n))
                        && !self.has_room(items@[n].1@.len() as int) && old(self).put_through(self, items@.take(n));
                assert(self.map() == maps::put_all(old(self).map(), items@.take(n)));
                assert(old(self).put_through(&*self, items@.take(n)));
            }
        }
        r
    }

    fn delete(&mut self, key: &Vec<u8>) -> (r: Result<bool, StorageError>) {
        Ok(BPlusTree::delete(self, key))
    }

    fn bulk_delete(&mut self, keys: &Vec<Vec<u8>>) -> (r: Result<usize, StorageError>) {
        let n: usize = BPlusTree::bulk_delete(self, keys);
        proof {
            lemma_left(old(self)@, self@, keys@);
        }
        Ok(n)
    }

    fn bulk_delete_sorted(&mut self, keys: &Vec<Vec<u8>>) -> (r: Result<usize, StorageError>) {
        let n: usize = BPlusTree::bulk_delete_sorted(self, keys);
        proof {
            lemma_left(old(self)@, self@, keys@);
        }
        Ok(n)
    }

    fn update<F: FnOnce(Option<Vec<u8>>) -> Option<Vec<u8>>>(&mut self, key: &Vec<u8>, f: F) -> (r: Result<
        (),
        StorageError,
    >) {
        BPlusTree::update(self, key, f)
    }

    fn clear(&mut self) -> (r: Result<(), StorageError>) {
        BPlusTree::clear(self);
        Ok(())
    }
}

// ---- the key directory --------------------------------------------------------------------------

impl Storage for KeyDir {
    type Stats = KeyDirStats;

    type Config = KeyDirConfig;

    open spec fn valid(&self) -> bool {
        self.wf()
    }

    open spec fn settings(&self) -> KeyDirConfig {
        self.config_view()
    }

    open spec fn counters(&self) -> KeyDirStats {
        self.stats_view()
    }

    fn stats(&self) -> (r: KeyDirStats) {
        KeyDir::stats(self)
    }

    fn config(&self) -> (r: KeyDirConfig) {
        KeyDir::config(self)
    }
}

impl DurableStorage for KeyDir {
    type Data = Map<Seq<u8>, Seq<u8>>;

    open spec fn data(&self) -> Map<Seq<u8>, Seq<u8>> {
        self@
    }

    open spec fn nothing() -> Map<Seq<u8>, Seq<u8>> {
        Map::empty()
    }

    open spec fn fresh(&self) -> bool {
        self.recs() == Seq::<log::Rec>::empty()
    }

    open spec fn feasible(config: KeyDirConfig) -> bool {
        config.initial_capacity <= log::MAX_LOG
    }

    open spec fn durable(config: KeyDirConfig) -> bool {
        true
    }

    open spec fn keeps(config: KeyDirConfig, image: Seq<u8>, data: Map<Seq<u8>, Seq<u8>>) -> bool {
        log::valid_image(image, keydir::MAGIC) && log::kv_of(log::image_recs(image)) == data
    }

    open spec fn opens(config: KeyDirConfig, image: Seq<u8>) -> bool {
        log::valid_image(image, keydir::MAGIC) && !Self::oversized(config, image)
    }

    open spec fn oversized(config: KeyDirConfig, image: Seq<u8>) -> bool {
        image.len() + 4 > log::MAX_LOG || config.initial_capacity > log::MAX_LOG
    }

    proof fn keeps_one(config: KeyDirConfig, image: Seq<u8>, a: Map<Seq<u8>, Seq<u8>>, b: Map<Seq<u8>, Seq<u8>>) {
    }

    open spec fn compactable(&self) -> bool {
        true
    }

    /// The log holds the live records alone, in the order in which they stood.
    open spec fn compacted(&self, to: &Self) -> bool {
        self.repacked(to)
    }

    fn create(config: KeyDirConfig) -> (r: Result<Self, StorageError>) {
        let r = KeyDir::create(config);
        assert(log::kv_of(Seq::<log::Rec>::empty()) =~= Map::<Seq<u8>, Seq<u8>>::empty());
        r
    }

    fn open(image: Vec<u8>, config: KeyDirConfig) -> (r: Result<Self, StorageError>) {
        KeyDir::open(image, config)
    }

    fn compact(&mut self) -> (r: Result<(), StorageError>) {
        KeyDir::compact(self);
        Ok(())
    }

    fn image(&self) -> (r: Vec<u8>) {
        proof {
            self.lemma_image();
        }
        KeyDir::image(self).duplicate()
    }
}

impl ReadBackend for KeyDir {
    open spec fn map(&self) -> Map<Seq<u8>, Seq<u8>> {
        self@
    }

    open spec fn in_order(&self) -> bool {
        false
    }

    fn get(&self, key: &Vec<u8>) -> (r: Option<Vec<u8>>) {
        KeyDir::get(self, key)
    }

    fn contains(&self, key: &Vec<u8>) -> (r: bool) {
        KeyDir::contains(self, key)
    }

    fn keys(&self) -> (r: Vec<Vec<u8>>) {
        KeyDir::keys(self)
    }

    fn values(&self) -> (r: Vec<Vec<u8>>) {
        let r: Vec<Vec<u8>> = KeyDir::values(self);
        proof {
            let keys = choose|keys: Seq<Vec<u8>>|
                maps::lists_keys(self@, keys) && #[trigger] maps::values_under(self@, keys, r@);
            assert(maps::values_under(self.map(), keys, r@));
        }
        r
    }

    fn entries(&self) -> (r: Vec<(Vec<u8>, Vec<u8>)>) {
        KeyDir::entries(self)
    }

    fn size(&self) -> (r: usize) {
        proof {
            self.lemma_image();
        }
        KeyDir::size(self)
    }
}

impl WriteBackend for KeyDir {
    open spec fn takes(config: KeyDirConfig, key: Seq<u8>, value: Seq<u8>) -> bool {
        keydir::fits(key, value)
    }

    open spec fn takes_key(config: KeyDirConfig, key: Seq<u8>) -> bool {
        true
    }

    open spec fn room(&self, key: Seq<u8>, value: Seq<u8>) -> bool {
        self.room_for(key, value)
    }

    open spec fn can_delete(&self, key: Seq<u8>) -> bool {
        !self@.contains_key(key) || self.has_room(8 + key.len() as int)
    }

    open spec fn put_makes(&self, to: &Self, key: Seq<u8>, value: Seq<u8>) -> bool {
        to.recs() == log::settled(self.config_view().compaction_ratio, self.recs().push(log::Rec::Put(key, value)))
    }

    open spec fn delete_makes(&self, to: &Self, key: Seq<u8>) -> bool {
        if self@.contains_key(key) {
            to.recs() == log::settled(self.config_view().compaction_ratio, self.recs().push(log::Rec::Del(key)))
        } else {
            *to == *self
        }
    }

    open spec fn buildable(&self, items: Seq<(Vec<u8>, Vec<u8>)>) -> bool {
        true
    }

    /// Each record has room behind those that are left once the entries before it are put.
    open spec fn room_for_all(&self, items: Seq<(Vec<u8>, Vec<u8>)>) -> bool {
        forall|n: int|
            0 <= n < items.len() ==> log::HEADER_SIZE + log::encode_all(
                log::written(self.config_view().compaction_ratio, self.recs(), #[trigger] items.take(n)),
            ).len() + 8 + items[n].0@.len() + items[n].1@.len() + 4 <= log::MAX_LOG
    }

    /// Each tombstone has room behind the records that are left once the keys before it are deleted.
    open spec fn can_delete_all(&self, keys: Seq<Vec<u8>>) -> bool {
        forall|n: int|
            0 <= n < keys.len() && log::kv_of(
                log::buried(self.config_view().compaction_ratio, self.recs(), #[trigger] keys.take(n)),
            ).contains_key(keys[n]@) ==> log::HEADER_SIZE + log::encode_all(
                log::buried(self.config_view().compaction_ratio, self.recs(), keys.take(n)),
            ).len() + 8 + keys[n]@.len() + 4 <= log::MAX_LOG
    }

    fn put(&mut self, key: Vec<u8>, value: Vec<u8>) -> (r: Result<(), StorageError>) {
        KeyDir::put(self, &key, &value)
    }

    fn put_if_absent(&mut self, key: &Vec<u8>, value: Vec<u8>) -> (r: Result<bool, StorageError>) {
        KeyDir::put_if_absent(self, key, &value)
    }

    fn replace(&mut self, key: &Vec<u8>, value: Vec<u8>) -> (r: Result<Option<Vec<u8>>, StorageError>) {
        KeyDir::replace(self, key, &value)
    }

    fn bulk_put(&mut self, items: Vec<(Vec<u8>, Vec<u8>)>) -> (r: Result<(), StorageError>) {
        proof {
            assert forall|i: int| 0 <= i < items@.len() implies keydir::fits((#[trigger] items@[i]).0@, items@[i].1@) by {
                assert(Self::takes(self.settings(), items@[i].0@, items@[i].1@));
            }
        }
        let r = KeyDir::bulk_put(self, &items);
        proof {
            if r is Err {
                let n = choose|n: int|
                    0 <= n < items@.len() && self@ == maps::put_all(old(self)@, #[trigger] items@.take(n))
                        && !self.room_for(items@[n].0@, items@[n].1@);
                assert(0 <= n < items@.len());
                assert(!self.room(items@[n].0@, items@[n].1@));
                assert(self.map() == maps::put_all(old(self).map(), items@.take(n)));
            } else {
                assert(self.map() == maps::put_all(old(self).map(), items@));
            }
        }
        r
    }

    fn bulk_put_sorted(&mut self, items: Vec<(Vec<u8>, Vec<u8>)>) -> (r: Result<(), StorageError>) {
        proof {
            assert forall|i: int| 0 <= i < items@.len() implies keydir::fits((#[trigger] items@[i]).0@, items@[i].1@) by {
                assert(Self::takes(self.settings(), items@[i].0@, items@[i].1@));
            }
        }
        let r = KeyDir::bulk_put(self, &items);
        proof {
            if r is Err {
                let n = choose|n: int|
                    0 <= n < items@.len() && self@ == maps::put_all(old(self)@, #[trigger] items@.take(n))
                        && self.recs() == log::written(
                        old(self).config_view().compaction_ratio,
                        old(self).recs(),
                        items@.take(n),
                    ) && !self.room_for(items@[n].0@, items@[n].1@);
                assert(self.map() == maps::put_all(old(self).map(), items@.take(n)));
            }
        }
        r
    }

    fn delete(&mut self, key: &Vec<u8>) -> (r: Result<bool, StorageError>) {
        let r = KeyDir::delete(self, key);
        assert(old(self)@.remove(key@) =~= old(self)@ || old(self)@.contains_key(key@));
        r
    }

    fn bulk_delete(&mut self, keys: &Vec<Vec<u8>>) -> (r: Result<usize, StorageError>) {
        match KeyDir::bulk_delete(self, keys) {
            Ok(n) => Ok(n),
            Err(e) => {
                proof {
                    let n = choose|n: int|
                        0 <= n < keys@.len() && self@ == maps::without(old(self)@, keys@, n) && self@.contains_key(
                            #[trigger] keys@[n]@,
                        ) && !self.has_room(8 + keys@[n]@.len() as int);
                    assert(maps::without(old(self).map(), keys@, n) == self.map());
                }
                Err(e)
            },
        }
    }

    fn bulk_delete_sorted(&mut self, keys: &Vec<Vec<u8>>) -> (r: Result<usize, StorageError>) {
        match KeyDir::bulk_delete(self, keys) {
            Ok(n) => Ok(n),
            Err(e) => {
                proof {
                    let n = choose|n: int|
                        0 <= n < keys@.len() && self@ == maps::without(old(self)@, keys@, n) && self@.contains_key(
                            #[trigger] keys@[n]@,
                        ) && self.recs() == log::buried(
                            old(self).config_view().compaction_ratio,
                            old(self).recs(),
                            keys@.take(n),
                        ) && !self.has_room(8 + keys@[n]@.len() as int);
                    assert(maps::without(old(self).map(), keys@, n) == self.map());
                    assert(keys@.take(n).len() == n);
                }
                Err(e)
            },
        }
    }

    fn update<F: FnOnce(Option<Vec<u8>>) -> Option<Vec<u8>>>(&mut self, key: &Vec<u8>, f: F) -> (r: Result<
        (),
        StorageError,
    >) {
        let r = KeyDir::update(self, key, f);
        proof {
            let (cur, out) = choose|cur: Option<Vec<u8>>, out: Option<Vec<u8>>| #[trigger]
                call_ensures(f, (cur,), out) && maps::holds(old(self)@, key@, cur) && keydir::update_done(
                    *old(self),
                    *self,
                    key@,
                    out,
                    r,
                );
            assert(call_ensures(f, (cur,), out));
            assert(old(self)@.remove(key@) =~= old(self)@ || old(self)@.contains_key(key@));
        }
        r
    }

    fn clear(&mut self) -> (r: Result<(), StorageError>) {
        KeyDir::clear(self);
        Ok(())
    }
}

impl OrderedReadBackend for KeyDir {
    fn range(&self, start: &Vec<u8>, end: &Vec<u8>) -> (r: Vec<(Vec<u8>, Vec<u8>)>) {
        let all: Vec<(Vec<u8>, Vec<u8>)> = KeyDir::entries(self);
        proof {
            self.lemma_listed(all@);
        }
        lists::sorted(lists::filtered(&all, start, end))
    }

    fn entries_rev(&self) -> (r: Vec<(Vec<u8>, Vec<u8>)>) {
        let all: Vec<(Vec<u8>, Vec<u8>)> = KeyDir::entries(self);
        proof {
            self.lemma_listed(all@);
        }
        maps::backwards(lists::sorted(all))
    }

    fn range_rev(&self, start: &Vec<u8>, end: &Vec<u8>) -> (r: Vec<(Vec<u8>, Vec<u8>)>) {
        let all: Vec<(Vec<u8>, Vec<u8>)> = KeyDir::entries(self);
        proof {
            self.lemma_listed(all@);
        }
        maps::backwards(lists::sorted(lists::filtered(&all, start, end)))
    }
}

// ---- the list in memory ------------------------------------------------------------------------

impl Storage for SkipList<Vec<u8>, Vec<u8>> {
    type Stats = SkipListStats;

    type Config = SkipListConfig;

    open spec fn valid(&self) -> bool {
        self.wf()
    }

    open spec fn settings(&self) -> SkipListConfig {
        self.config_view()
    }

    open spec fn counters(&self) -> SkipListStats {
        SkipListStats { entries: self@.len() as usize }
    }

    fn stats(&self) -> (r: SkipListStats) {
        SkipList::stats(self)
    }

    fn config(&self) -> (r: SkipListConfig) {
        SkipList::config(self)
    }
}

impl ReadBackend for SkipList<Vec<u8>, Vec<u8>> {
    open spec fn map(&self) -> Map<Seq<u8>, Seq<u8>> {
        lists::bytes_of(self@)
    }

    open spec fn in_order(&self) -> bool {
        true
    }

    fn get(&self, key: &Vec<u8>) -> (r: Option<Vec<u8>>) {
        match SkipList::get(self, key) {
            Some(v) => Some(v.duplicate()),
            None => None,
        }
    }

    fn contains(&self, key: &Vec<u8>) -> (r: bool) {
        SkipList::contains(self, key)
    }

    fn keys(&self) -> (r: Vec<Vec<u8>>) {
        let all: Vec<(Vec<u8>, Vec<u8>)> = lists::entries(self);
        maps::keys_of(all, Ghost(self.map()))
    }

    fn values(&self) -> (r: Vec<Vec<u8>>) {
        let all: Vec<(Vec<u8>, Vec<u8>)> = lists::entries(self);
        let r: Vec<Vec<u8>> = maps::values_in_order(all, Ghost(self.map()));
        proof {
            let m = self.map();
            let keys = choose|keys: Seq<Vec<u8>>|
                maps::lists_keys(m, keys) && maps::rising(keys) && #[trigger] maps::values_under(m, keys, r@);
            assert(maps::values_under(self.map(), keys, r@));
        }
        r
    }

    fn entries(&self) -> (r: Vec<(Vec<u8>, Vec<u8>)>) {
        let r: Vec<(Vec<u8>, Vec<u8>)> = lists::entries(self);
        proof {
            maps::lemma_distinct(r@);
        }
        r
    }

    fn size(&self) -> (r: usize) {
        proof {
            self.lemma_items();
            assert(self.map().dom() =~= self@.dom());
        }
        SkipList::size(self)
    }
}

impl OrderedReadBackend for SkipList<Vec<u8>, Vec<u8>> {
    fn range(&self, start: &Vec<u8>, end: &Vec<u8>) -> (r: Vec<(Vec<u8>, Vec<u8>)>) {
        lists::range(self, start, end)
    }

    fn first(&self) -> (r: Option<(Vec<u8>, Vec<u8>)>) {
        lists::first(self)
    }

    fn last(&self) -> (r: Option<(Vec<u8>, Vec<u8>)>) {
        lists::last(self)
    }

    fn entries_rev(&self) -> (r: Vec<(Vec<u8>, Vec<u8>)>) {
        lists::entries_rev(self)
    }

    fn range_rev(&self, start: &Vec<u8>, end: &Vec<u8>) -> (r: Vec<(Vec<u8>, Vec<u8>)>) {
        lists::range_rev(self, start, end)
    }
}

impl WriteBackend for SkipList<Vec<u8>, Vec<u8>> {
    open spec fn takes(config: SkipListConfig, key: Seq<u8>, value: Seq<u8>) -> bool {
        true
    }

    open spec fn takes_key(config: SkipListConfig, key: Seq<u8>) -> bool {
        true
    }

    open spec fn room(&self, key: Seq<u8>, value: Seq<u8>) -> bool {
        self@.contains_key(key) || self@.len() < skiplist::limit(self.config_view())
    }

    open spec fn can_delete(&self, key: Seq<u8>) -> bool {
        true
    }

    open spec fn put_makes(&self, to: &Self, key: Seq<u8>, value: Seq<u8>) -> bool {
        to.node_count() == skiplist::peak(self.node_count(), to@.len() as int)
    }

    open spec fn delete_makes(&self, to: &Self, key: Seq<u8>) -> bool {
        to.node_count() == self.node_count()
    }

    open spec fn buildable(&self, items: Seq<(Vec<u8>, Vec<u8>)>) -> bool {
        true
    }

    /// Each key is there, or there are fewer than may be, once the entries before it are put.
    open spec fn room_for_all(&self, items: Seq<(Vec<u8>, Vec<u8>)>) -> bool {
        forall|n: int|
            0 <= n < items.len() ==> {
                let m = maps::put_all(self.map(), #[trigger] items.take(n));
                m.contains_key(items[n].0@) || m.len() < skiplist::limit(self.config_view())
            }
    }

    open spec fn can_delete_all(&self, keys: Seq<Vec<u8>>) -> bool {
        true
    }

    fn put(&mut self, key: Vec<u8>, value: Vec<u8>) -> (r: Result<(), StorageError>) {
        proof {
            lists::lemma_insert(self@, key@, value);
        }
        SkipList::put(self, key, value)
    }

    fn put_if_absent(&mut self, key: &Vec<u8>, value: Vec<u8>) -> (r: Result<bool, StorageError>) {
        proof {
            lists::lemma_insert(self@, key@, value);
        }
        SkipList::put_if_absent(self, key, value)
    }

    fn replace(&mut self, key: &Vec<u8>, value: Vec<u8>) -> (r: Result<Option<Vec<u8>>, StorageError>) {
        proof {
            lists::lemma_insert(self@, key@, value);
        }
        SkipList::replace(self, key, value)
    }

    fn bulk_put(&mut self, items: Vec<(Vec<u8>, Vec<u8>)>) -> (r: Result<(), StorageError>) {
        let ghost all = items@;
        proof {
            lists::lemma_put_all(self@, all);
        }
        match SkipList::bulk_put(self, items) {
            Ok(_) => Ok(()),
            Err(e) => {
                proof {
                    let n = choose|n: int|
                        0 <= n < all.len() && self@ == ordered::put_all(old(self)@, #[trigger] all.take(n))
                            && !self@.contains_key(all[n].0@) && self@.len() >= skiplist::limit(
                            old(self).config_view(),
                        );
                    lists::lemma_put_all(old(self)@, all.take(n));
                }
                Err(e)
            },
        }
    }

    fn bulk_put_sorted(&mut self, items: Vec<(Vec<u8>, Vec<u8>)>) -> (r: Result<(), StorageError>) {
        let ghost all = items@;
        proof {
            lists::lemma_put_all(self@, all);
            lex::order_laws();
        }
        match SkipList::bulk_put_sorted(self, items) {
            Ok(_) => Ok(()),
            Err(e) => {
                proof {
                    let n = choose|n: int|
                        0 <= n < all.len() && self@ == ordered::put_all(old(self)@, #[trigger] all.take(n))
                            && !self@.contains_key(all[n].0@) && self@.len() >= skiplist::limit(
                            old(self).config_view(),
                        );
                    lists::lemma_put_all(old(self)@, all.take(n));
                    assert(self.map().dom() =~= self@.dom());
                    assert(self.map() == maps::put_all(old(self).map(), all.take(n)));
                }
                Err(e)
            },
        }
    }

    fn delete(&mut self, key: &Vec<u8>) -> (r: Result<bool, StorageError>) {
        proof {
            lists::lemma_gone(self@, key@);
        }
        SkipList::delete(self, key)
    }

    fn bulk_delete(&mut self, keys: &Vec<Vec<u8>>) -> (r: Result<usize, StorageError>) {
        let r = SkipList::bulk_delete(self, keys);
        proof {
            lists::lemma_without(old(self)@, keys@, keys@.len() as int);
            assert(self.map().dom() =~= self@.dom());
            assert(old(self).map().dom() =~= old(self)@.dom());
        }
        r
    }

    fn bulk_delete_sorted(&mut self, keys: &Vec<Vec<u8>>) -> (r: Result<usize, StorageError>) {
        proof {
            lex::order_laws();
            assert forall|i: int, j: int| 0 <= i < j < keys@.len() implies !<Vec<u8> as Key>::before(
                (#[trigger] keys@[j])@,
                (#[trigger] keys@[i])@,
            ) by {
                assert(lex::le(keys@[i]@, keys@[j]@));
            }
        }
        let r = SkipList::bulk_delete_sorted(self, keys);
        proof {
            lists::lemma_without(old(self)@, keys@, keys@.len() as int);
            assert(self.map().dom() =~= self@.dom());
            assert(old(self).map().dom() =~= old(self)@.dom());
        }
        r
    }

    fn update<F: FnOnce(Option<Vec<u8>>) -> Option<Vec<u8>>>(&mut self, key: &Vec<u8>, f: F) -> (r: Result<
        (),
        StorageError,
    >) {
        let ghost was = self@;
        proof {
            assert forall|cur: Option<Vec<u8>>| #[trigger] skiplist::found(self@, key@, cur) implies call_requires(
                f,
                (cur,),
            ) by {
                assert(maps::holds(self.map(), key@, cur));
            }
        }
        let r = SkipList::update(self, key, f);
        proof {
            let (cur, out) = choose|cur: Option<Vec<u8>>, out: Option<Vec<u8>>| #[trigger]
                call_ensures(f, (cur,), out) && skiplist::found(was, key@, cur) && match out {
                    Some(v) => match r {
                        Ok(_) => (was.contains_key(key@) || was.len() < skiplist::limit(old(self).config_view()))
                            && self@ == was.insert(key@, v),
                        Err(e) => e == StorageError::StorageFull && !was.contains_key(key@) && was.len()
                            >= skiplist::limit(old(self).config_view()) && self@ == was,
                    },
                    None => r is Ok && self@ == was.remove(key@),
                };
            assert(call_ensures(f, (cur,), out));
            assert(maps::holds(old(self).map(), key@, cur));
            lists::lemma_gone(was, key@);
            old(self).lemma_items();
            if out is Some {
                lists::lemma_insert(was, key@, out->Some_0);
            }
        }
        r
    }

    fn clear(&mut self) -> (r: Result<(), StorageError>) {
        let r = SkipList::clear(self);
        assert(self.map() =~= Map::<Seq<u8>, Seq<u8>>::empty());
        r
    }
}

} // verus!
