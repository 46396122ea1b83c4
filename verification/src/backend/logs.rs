//! The order logs as backends.

use crate::backend::traits::{DurableStorage, OrderedBackend, OrderedReadBackend, ReadBackend, Storage, WriteBackend};
use crate::engine::log;
use crate::engine::log_store;
use crate::engine::maps;
use crate::engine::order_log;
use crate::engine::orderlog;
use crate::engine::orderlog::{OrderLog, OrderLogConfig, OrderLogStats};
use crate::error::StorageError;
use crate::utils::key::Key;
use vstd::prelude::*;

verus! {

proof fn lemma_all_fit(items: Seq<(Vec<u8>, Vec<u8>)>, config: OrderLogConfig)
    requires
        forall|i: int|
            0 <= i < items.len() ==> OrderLog::takes(config, (#[trigger] items[i]).0@, items[i].1@),
    ensures
        forall|i: int| 0 <= i < items.len() ==> orderlog::fits((#[trigger] items[i]).0@, items[i].1@),
{
    assert forall|i: int| 0 <= i < items.len() implies orderlog::fits((#[trigger] items[i]).0@, items[i].1@) by {
        assert(OrderLog::takes(config, items[i].0@, items[i].1@));
    }
}

impl Storage for OrderLog {
    type Stats = OrderLogStats;

    type Config = OrderLogConfig;

    open spec fn valid(&self) -> bool {
        self.wf()
    }

    open spec fn settings(&self) -> OrderLogConfig {
        self.config_view()
    }

    open spec fn counters(&self) -> OrderLogStats {
        self.stats_view()
    }

    fn stats(&self) -> (r: OrderLogStats) {
        OrderLog::stats(self)
    }

    fn config(&self) -> (r: OrderLogConfig) {
        OrderLog::config(self)
    }
}

impl DurableStorage for OrderLog {
    type Data = Map<Seq<u8>, Seq<u8>>;

    open spec fn data(&self) -> Map<Seq<u8>, Seq<u8>> {
        self@
    }

    open spec fn nothing() -> Map<Seq<u8>, Seq<u8>> {
        Map::empty()
    }

    open spec fn fresh(&self) -> bool {
        self.recs() == Seq::<log::Rec>::empty()
    }

    open spec fn feasible(config: OrderLogConfig) -> bool {
        config.initial_capacity <= log::MAX_LOG
    }

    open spec fn durable(config: OrderLogConfig) -> bool {
        true
    }

    open spec fn keeps(config: OrderLogConfig, image: Seq<u8>, data: Map<Seq<u8>, Seq<u8>>) -> bool {
        log::valid_image(image, log_store::MAGIC) && log::kv_of(log::image_recs(image)) == data
    }

    open spec fn opens(config: OrderLogConfig, image: Seq<u8>) -> bool {
        log::valid_image(image, log_store::MAGIC) && !Self::oversized(config, image)
    }

    open spec fn oversized(config: OrderLogConfig, image: Seq<u8>) -> bool {
        image.len() + 4 > log::MAX_LOG || config.initial_capacity > log::MAX_LOG
    }

    proof fn keeps_one(config: OrderLogConfig, image: Seq<u8>, a: Map<Seq<u8>, Seq<u8>>, b: Map<Seq<u8>, Seq<u8>>) {
    }

    open spec fn compactable(&self) -> bool {
        true
    }

    /// The log holds the live records alone, in the order in which they stood.
    open spec fn compacted(&self, to: &Self) -> bool {
        self.repacked(to)
    }

    fn create(config: OrderLogConfig) -> (r: Result<Self, StorageError>) {
        OrderLog::create(config)
    }

    fn open(image: Vec<u8>, config: OrderLogConfig) -> (r: Result<Self, StorageError>) {
        OrderLog::open(image, config)
    }

    fn compact(&mut self) -> (r: Result<(), StorageError>) {
        OrderLog::compact(self)
    }

    fn image(&self) -> (r: Vec<u8>) {
        proof {
            self.lemma_image();
        }
        OrderLog::image(self).duplicate()
    }
}

impl ReadBackend for OrderLog {
    open spec fn map(&self) -> Map<Seq<u8>, Seq<u8>> {
        self@
    }

    open spec fn in_order(&self) -> bool {
        true
    }

    fn get(&self, key: &Vec<u8>) -> (r: Option<Vec<u8>>) {
        match OrderLog::get(self, key) {
            Some(v) => Some(v.duplicate()),
            None => None,
        }
    }

    fn contains(&self, key: &Vec<u8>) -> (r: bool) {
        OrderLog::contains(self, key)
    }

    fn keys(&self) -> (r: Vec<Vec<u8>>) {
        OrderLog::keys(self)
    }

    fn values(&self) -> (r: Vec<Vec<u8>>) {
        let r: Vec<Vec<u8>> = OrderLog::values(self);
        proof {
            let keys = choose|keys: Seq<Vec<u8>>|
                maps::lists_keys(self@, keys) && maps::rising(keys) && #[trigger] maps::values_under(self@, keys, r@);
            assert(maps::values_under(self.map(), keys, r@));
        }
        r
    }

    fn entries(&self) -> (r: Vec<(Vec<u8>, Vec<u8>)>) {
        let r: Vec<(Vec<u8>, Vec<u8>)> = OrderLog::entries(self);
        proof {
            maps::lemma_distinct(r@);
        }
        r
    }

    fn size(&self) -> (r: usize) {
        proof {
            self.lemma_image();
        }
        OrderLog::size(self)
    }
}

impl WriteBackend for OrderLog {
    open spec fn takes(config: OrderLogConfig, key: Seq<u8>, value: Seq<u8>) -> bool {
        orderlog::fits(key, value)
    }

    open spec fn takes_key(config: OrderLogConfig, key: Seq<u8>) -> bool {
        true
    }

    open spec fn room(&self, key: Seq<u8>, value: Seq<u8>) -> bool {
        self.room_for(key, value)
    }

    open spec fn can_delete(&self, key: Seq<u8>) -> bool {
        !self@.contains_key(key) || self.has_room(8 + key.len() as int)
    }

    open spec fn put_makes(&self, to: &Self, key: Seq<u8>, value: Seq<u8>) -> bool {
        to.recs() == log::settled(self.config_view().compaction_ratio, self.recs().push(log::Rec::Put(key, value)))
    }

    open spec fn delete_makes(&self, to: &Self, key: Seq<u8>) -> bool {
        if self@.contains_key(key) {
            to.recs() == log::settled(self.config_view().compaction_ratio, self.recs().push(log::Rec::Del(key)))
        } else {
            *to == *self
        }
    }

    open spec fn buildable(&self, items: Seq<(Vec<u8>, Vec<u8>)>) -> bool {
        true
    }

    /// Each record has room behind those that are there and those of the entries before it.
    open spec fn room_for_all(&self, items: Seq<(Vec<u8>, Vec<u8>)>) -> bool {
        forall|n: int|
            0 <= n < items.len() ==> orderlog::room_behind(
                orderlog::puts(self.recs(), #[trigger] items.take(n)),
                items[n],
            )
    }

    /// Each tombstone has room behind the records that are there and the tombstones before it.
    open spec fn can_delete_all(&self, keys: Seq<Vec<u8>>) -> bool {
        forall|n: int|
            0 <= n < keys.len() && log::kv_of(orderlog::dels(self.recs(), #[trigger] keys.take(n))).contains_key(
                keys[n]@,
            ) ==> log::HEADER_SIZE + log::encode_all(orderlog::dels(self.recs(), keys.take(n))).len() + 8
                + keys[n]@.len() + 4 <= log::MAX_LOG
    }

    fn put(&mut self, key: Vec<u8>, value: Vec<u8>) -> (r: Result<(), StorageError>) {
        OrderLog::put(self, key, value)
    }

    fn delete(&mut self, key: &Vec<u8>) -> (r: Result<bool, StorageError>) {
        match OrderLog::delete(self, key) {
            Ok(true) => Ok(true),
            Ok(false) => {
                assert(old(self)@.remove(key@) =~= old(self)@);
                Ok(false)
            },
            Err(e) => Err(e),
        }
    }

    fn update<F: FnOnce(Option<Vec<u8>>) -> Option<Vec<u8>>>(&mut self, key: &Vec<u8>, f: F) -> (r: Result<
        (),
        StorageError,
    >) {
        let r = OrderLog::update(self, key, f);
        proof {
            let (cur, out) = choose|cur: Option<Vec<u8>>, out: Option<Vec<u8>>| #[trigger]
                call_ensures(f, (cur,), out) && maps::holds(old(self)@, key@, cur) && orderlog::update_done(
                    *old(self),
                    *self,
                    key@,
                    out,
                    r,
                );
            assert(call_ensures(f, (cur,), out));
            assert(old(self)@.remove(key@) =~= old(self)@ || old(self)@.contains_key(key@));
        }
        r
    }

    fn clear(&mut self) -> (r: Result<(), StorageError>) {
        OrderLog::clear(self)
    }

    fn put_if_absent(&mut self, key: &Vec<u8>, value: Vec<u8>) -> (r: Result<bool, StorageError>) {
        OrderLog::put_if_absent(self, key.duplicate(), value)
    }

    fn replace(&mut self, key: &Vec<u8>, value: Vec<u8>) -> (r: Result<Option<Vec<u8>>, StorageError>) {
        OrderLog::replace(self, key.duplicate(), value)
    }

    fn bulk_put(&mut self, items: Vec<(Vec<u8>, Vec<u8>)>) -> (r: Result<(), StorageError>) {
        proof {
            lemma_all_fit(items@, self.settings());
        }
        let r = OrderLog::bulk_put(self, &items);
        proof {
            if r is Err {
                let n = choose|n: int|
                    0 <= n < items@.len() && self@ == maps::put_all(old(self)@, #[trigger] items@.take(n))
                        && !self.room_for(items@[n].0@, items@[n].1@);
                assert(self.map() == maps::put_all(old(self).map(), items@.take(n)));
            }
        }
        r
    }

    fn bulk_put_sorted(&mut self, items: Vec<(Vec<u8>, Vec<u8>)>) -> (r: Result<(), StorageError>) {
        proof {
            lemma_all_fit(items@, self.settings());
        }
        let r = OrderLog::bulk_put_sorted(self, &items);
        proof {
            if r is Err {
                let n = choose|n: int|
                    0 <= n < items@.len() && self@ == maps::put_all(old(self)@, #[trigger] items@.take(n))
                        && !orderlog::room_behind(orderlog::puts(old(self).recs(), items@.take(n)), items@[n]);
                assert(self.map() == maps::put_all(old(self).map(), items@.take(n)));
            }
        }
        r
    }

    fn bulk_delete(&mut self, keys: &Vec<Vec<u8>>) -> (r: Result<usize, StorageError>) {
        match OrderLog::bulk_delete(self, keys) {
            Ok(n) => Ok(n),
            Err(e) => {
                proof {
                    let n = choose|n: int|
                        0 <= n < keys@.len() && self@ == maps::without(old(self)@, keys@, n) && self@.contains_key(
                            #[trigger] keys@[n]@,
                        ) && !self.has_room(8 + keys@[n]@.len() as int);
                    assert(maps::without(old(self).map(), keys@, n) == self.map());
                }
                Err(e)
            },
        }
    }

    fn bulk_delete_sorted(&mut self, keys: &Vec<Vec<u8>>) -> (r: Result<usize, StorageError>) {
        match OrderLog::bulk_delete_sorted(self, keys) {
            Ok(n) => Ok(n),
            Err(e) => {
                proof {
                    let n = choose|n: int|
                        0 <= n < keys@.len() && self@ == maps::without(old(self)@, keys@, n) && self@.contains_key(
                            #[trigger] keys@[n]@,
                        ) && log::kv_of(orderlog::dels(old(self).recs(), keys@.take(n))) == self@ && log::HEADER_SIZE
                            + log::encode_all(orderlog::dels(old(self).recs(), keys@.take(n))).len() + 8
                            + keys@[n]@.len() + 4 > log::MAX_LOG;
                    assert(maps::without(old(self).map(), keys@, n) == self.map());
                    assert(keys@.take(n).len() == n);
                }
                Err(e)
            },
        }
    }
}

impl OrderedReadBackend for OrderLog {
    fn range(&self, start: &Vec<u8>, end: &Vec<u8>) -> (r: Vec<(Vec<u8>, Vec<u8>)>) {
        OrderLog::range(self, start, end)
    }

    fn first(&self) -> (r: Option<(Vec<u8>, Vec<u8>)>) {
        OrderLog::first(self)
    }

    fn last(&self) -> (r: Option<(Vec<u8>, Vec<u8>)>) {
        OrderLog::last(self)
    }

    fn entries_rev(&self) -> (r: Vec<(Vec<u8>, Vec<u8>)>) {
        OrderLog::entries_rev(self)
    }

    fn range_rev(&self, start: &Vec<u8>, end: &Vec<u8>) -> (r: Vec<(Vec<u8>, Vec<u8>)>) {
        OrderLog::range_rev(self, start, end)
    }
}

impl Storage for order_log::OrderLog {
    type Stats = order_log::OrderLogStats;

    type Config = order_log::OrderLogConfig;

    open spec fn valid(&self) -> bool {
        self.wf()
    }

    open spec fn settings(&self) -> order_log::OrderLogConfig {
        self.config_view()
    }

    open spec fn counters(&self) -> order_log::OrderLogStats {
        self.stats_view()
    }

    fn stats(&self) -> (r: order_log::OrderLogStats) {
        order_log::OrderLog::stats(self)
    }

    fn config(&self) -> (r: order_log::OrderLogConfig) {
        order_log::OrderLog::config(self)
    }
}

impl DurableStorage for order_log::OrderLog {
    type Data = Map<Seq<u8>, Seq<u8>>;

    open spec fn data(&self) -> Map<Seq<u8>, Seq<u8>> {
        self@
    }

    open spec fn nothing() -> Map<Seq<u8>, Seq<u8>> {
        Map::empty()
    }

    open spec fn fresh(&self) -> bool {
        self.recs() == Seq::<log::Rec>::empty()
    }

    open spec fn feasible(config: order_log::OrderLogConfig) -> bool {
        config.initial_capacity <= log::MAX_LOG
    }

    open spec fn durable(config: order_log::OrderLogConfig) -> bool {
        true
    }

    open spec fn keeps(config: order_log::OrderLogConfig, image: Seq<u8>, data: Map<Seq<u8>, Seq<u8>>) -> bool {
        log::valid_image(log::ended(image), log_store::MAGIC) && log::kv_of(log::image_recs(log::ended(image))) == data
    }

    open spec fn opens(config: order_log::OrderLogConfig, image: Seq<u8>) -> bool {
        log::valid_image(log::ended(image), log_store::MAGIC) && !Self::oversized(config, image)
    }

    open spec fn oversized(config: order_log::OrderLogConfig, image: Seq<u8>) -> bool {
        image.len() + 4 > log::MAX_LOG || config.initial_capacity > log::MAX_LOG
    }

    proof fn keeps_one(config: order_log::OrderLogConfig, image: Seq<u8>, a: Map<Seq<u8>, Seq<u8>>, b: Map<Seq<u8>, Seq<u8>>) {
    }

    open spec fn compactable(&self) -> bool {
        true
    }

    /// The log holds one record for each live entry, in key order.
    open spec fn compacted(&self, to: &Self) -> bool {
        self.repacked(to)
    }

    fn create(config: order_log::OrderLogConfig) -> (r: Result<Self, StorageError>) {
        order_log::OrderLog::create(config)
    }

    fn open(image: Vec<u8>, config: order_log::OrderLogConfig) -> (r: Result<Self, StorageError>) {
        order_log::OrderLog::open(image, config)
    }

    fn compact(&mut self) -> (r: Result<(), StorageError>) {
        order_log::OrderLog::compact(self)
    }

    fn image(&self) -> (r: Vec<u8>) {
        proof {
            self.lemma_image();
        }
        order_log::OrderLog::image(self).duplicate()
    }
}

impl ReadBackend for order_log::OrderLog {
    open spec fn map(&self) -> Map<Seq<u8>, Seq<u8>> {
        self@
    }

    open spec fn in_order(&self) -> bool {
        true
    }

    fn get(&self, key: &Vec<u8>) -> (r: Option<Vec<u8>>) {
        order_log::OrderLog::get(self, key)
    }

    fn contains(&self, key: &Vec<u8>) -> (r: bool) {
        order_log::OrderLog::contains(self, key)
    }

    fn keys(&self) -> (r: Vec<Vec<u8>>) {
        order_log::OrderLog::keys(self)
    }

    fn values(&self) -> (r: Vec<Vec<u8>>) {
        let r: Vec<Vec<u8>> = order_log::OrderLog::values(self);
        proof {
            let keys = choose|keys: Seq<Vec<u8>>|
                maps::lists_keys(self@, keys) && maps::rising(keys) && #[trigger] maps::values_under(self@, keys, r@);
            assert(maps::values_under(self.map(), keys, r@));
        }
        r
    }

    fn entries(&self) -> (r: Vec<(Vec<u8>, Vec<u8>)>) {
        let r: Vec<(Vec<u8>, Vec<u8>)> = order_log::OrderLog::entries(self);
        proof {
            maps::lemma_distinct(r@);
        }
        r
    }

    fn size(&self) -> (r: usize) {
        proof {
            self.lemma_image();
        }
        order_log::OrderLog::size(self)
    }
}

impl WriteBackend for order_log::OrderLog {
    open spec fn takes(config: order_log::OrderLogConfig, key: Seq<u8>, value: Seq<u8>) -> bool {
        order_log::fits(key, value)
    }

    open spec fn takes_key(config: order_log::OrderLogConfig, key: Seq<u8>) -> bool {
        true
    }

    open spec fn room(&self, key: Seq<u8>, value: Seq<u8>) -> bool {
        self.room_for(key, value)
    }

    open spec fn can_delete(&self, key: Seq<u8>) -> bool {
        !self@.contains_key(key) || self.has_room(8 + key.len() as int)
    }

    open spec fn put_makes(&self, to: &Self, key: Seq<u8>, value: Seq<u8>) -> bool {
        order_log::settles(self.config_view(), self.recs().push(log::Rec::Put(key, value)), to.recs())
    }

    open spec fn delete_makes(&self, to: &Self, key: Seq<u8>) -> bool {
        if self@.contains_key(key) {
            order_log::settles(self.config_view(), self.recs().push(log::Rec::Del(key)), to.recs())
        } else {
            *to == *self
        }
    }

    open spec fn buildable(&self, items: Seq<(Vec<u8>, Vec<u8>)>) -> bool {
        true
    }

    /// Each record has room behind those that are left once the entries before it are put.
    open spec fn room_for_all(&self, items: Seq<(Vec<u8>, Vec<u8>)>) -> bool {
        forall|rs: Seq<log::Rec>, n: int|
            0 <= n < items.len() && #[trigger] order_log::written(
                self.config_view(),
                self.recs(),
                items.take(n),
                rs,
            ) ==> log::HEADER_SIZE + log::encode_all(rs).len() + 8 + items[n].0@.len() + items[n].1@.len() + 4
                <= log::MAX_LOG
    }

    /// Each tombstone has room behind the records that are left once the keys before it are deleted.
    open spec fn can_delete_all(&self, keys: Seq<Vec<u8>>) -> bool {
        forall|rs: Seq<log::Rec>, n: int|
            0 <= n < keys.len() && #[trigger] order_log::buried(self.config_view(), self.recs(), keys.take(n), rs)
                && log::kv_of(rs).contains_key(keys[n]@) ==> log::HEADER_SIZE + log::encode_all(rs).len() + 8
                + keys[n]@.len() + 4 <= log::MAX_LOG
    }

    fn put(&mut self, key: Vec<u8>, value: Vec<u8>) -> (r: Result<(), StorageError>) {
        let ghost (k, v) = (key@, value@);
        let r = order_log::OrderLog::put(self, key, value);
        assert(r is Ok ==> old(self).put_makes(&*self, k, v));
        r
    }

    fn delete(&mut self, key: &Vec<u8>) -> (r: Result<bool, StorageError>) {
        match order_log::OrderLog::delete(self, key) {
            Ok(was) => {
                assert(was == old(self)@.contains_key(key@));
                if !was {
                    assert(old(self)@.remove(key@) =~= old(self)@);
                }
                assert(self@ == old(self)@.remove(key@));
                assert(old(self).can_delete(key@));
                assert(old(self).delete_makes(&*self, key@));
                Ok(was)
            },
            Err(e) => {
                assert(self.map() == old(self).map());
                assert(!old(self).can_delete(key@));
                Err(e)
            },
        }
    }

    fn bulk_put_sorted(&mut self, items: Vec<(Vec<u8>, Vec<u8>)>) -> (r: Result<(), StorageError>) {
        let mut i: usize = 0;
        assert(items@.take(0) =~= Seq::<(Vec<u8>, Vec<u8>)>::empty());
        while i < items.len()
            invariant
                0 <= i <= items@.len(),
                self.wf(),
                self.config_view() == old(self).config_view(),
                forall|j: int|
                    0 <= j < items@.len() ==> Self::takes(
                        old(self).settings(),
                        (#[trigger] items@[j]).0@,
                        items@[j].1@,
                    ),
                self@ == maps::put_all(old(self)@, items@.take(i as int)),
                order_log::written(self.config_view(), old(self).recs(), items@.take(i as int), self.recs()),
            decreases items@.len() - i,
        {
            let ghost before = *self;
            assert(Self::takes(old(self).settings(), items@[i as int].0@, items@[i as int].1@));
            match order_log::OrderLog::put(self, items[i].0.duplicate(), items[i].1.duplicate()) {
                Ok(_) => {},
                Err(e) => {
                    assert(self.map() == maps::put_all(old(self).map(), items@.take(i as int)));
                    return Err(e);
                },
            }
            proof {
                let next = items@.take(i + 1);
                assert(next.drop_last() =~= items@.take(i as int));
                assert(next.last() == items@[i as int]);
                assert(order_log::settles(
                    self.config_view(),
                    before.recs().push(log::Rec::Put(next.last().0@, next.last().1@)),
                    self.recs(),
                ));
            }
            i = i + 1;
        }
        assert(items@.take(i as int) =~= items@);
        Ok(())
    }

    fn bulk_delete_sorted(&mut self, keys: &Vec<Vec<u8>>) -> (r: Result<usize, StorageError>) {
        let mut i: usize = 0;
        let mut n: usize = 0;
        let all: usize = ReadBackend::size(self);
        proof {
            assert(maps::without(self@, keys@, 0) =~= self@);
            assert(keys@.take(0) =~= Seq::<Vec<u8>>::empty());
        }
        while i < keys.len()
            invariant
                0 <= i <= keys@.len(),
                self.wf(),
                self.config_view() == old(self).config_view(),
                old(self)@.len() == all,
                self@ == maps::without(old(self)@, keys@, i as int),
                self@.dom().finite(),
                n + self@.len() == old(self)@.len(),
                order_log::buried(self.config_view(), old(self).recs(), keys@.take(i as int), self.recs()),
            decreases keys@.len() - i,
        {
            let ghost before = *self;
            let ghost k = keys@[i as int]@;
            match order_log::OrderLog::delete(self, &keys[i]) {
                Ok(there) => {
                    proof {
                        maps::lemma_without_next(old(self)@, keys@, i as int);
                        assert(before@.remove(k).dom() =~= before@.dom().remove(k));
                        if !there {
                            assert(before@.remove(k) =~= before@);
                        }
                        assert(keys@.take(i + 1).drop_last() =~= keys@.take(i as int));
                        let next = keys@.take(i + 1);
                        assert(next.last() == keys@[i as int]);
                        assert(order_log::buries(self.config_view(), before.recs(), next.last()@, self.recs()));
                    }
                    if there {
                        n = n + 1;
                    }
                },
                Err(e) => {
                    proof {
                        assert(maps::without(old(self).map(), keys@, i as int) == self.map());
                        assert(*self == before);
                    }
                    return Err(e);
                },
            }
            i = i + 1;
        }
        Ok(n)
    }

    fn update<F: FnOnce(Option<Vec<u8>>) -> Option<Vec<u8>>>(&mut self, key: &Vec<u8>, f: F) -> (r: Result<
        (),
        StorageError,
    >) {
        proof {
            assert forall|cur: Option<Vec<u8>>| #[trigger] maps::holds(self@, key@, cur) implies call_requires(f, (cur,)) by {
                assert(maps::holds(self.map(), key@, cur));
            }
        }
        let r = order_log::OrderLog::update(self, key, f);
        proof {
            let (cur, out) = choose|cur: Option<Vec<u8>>, out: Option<Vec<u8>>| #[trigger]
                call_ensures(f, (cur,), out) && maps::holds(old(self)@, key@, cur) && order_log::update_done(
                    *old(self),
                    *self,
                    key@,
                    out,
                    r,
                );
            assert(call_ensures(f, (cur,), out));
            assert(old(self)@.remove(key@) =~= old(self)@ || old(self)@.contains_key(key@));
        }
        r
    }

    fn clear(&mut self) -> (r: Result<(), StorageError>) {
        order_log::OrderLog::clear(self)
    }
}

impl OrderedBackend for order_log::OrderLog {
    fn range(&self, start: &Vec<u8>, end: &Vec<u8>) -> (r: Vec<(Vec<u8>, Vec<u8>)>) {
        order_log::OrderLog::range(self, start, end)
    }

    fn first(&self) -> (r: Option<(Vec<u8>, Vec<u8>)>) {
        order_log::OrderLog::first(self)
    }

    fn last(&self) -> (r: Option<(Vec<u8>, Vec<u8>)>) {
        order_log::OrderLog::last(self)
    }
}

} // verus!
