//! What the key-value stores have in common.
//!
//! Reading and writing are separate: a store offers both; what guards an invariant of its own can
//! offer reading alone. Keys and values are bytes.

use crate::engine::lists;
use crate::engine::maps;
use crate::error::StorageError;
use crate::utils::key::Key;
use vstd::prelude::*;

verus! {

/// Something with counters and settings.
pub trait Storage: Sized {
    type Stats;

    type Config;

    /// The store is in order.
    spec fn valid(&self) -> bool;

    /// What it was made with.
    spec fn settings(&self) -> Self::Config;

    /// What its counters stand at.
    spec fn counters(&self) -> Self::Stats;

    fn stats(&self) -> (r: Self::Stats)
        requires
            self.valid(),
        ensures
            r == self.counters(),
    ;

    fn config(&self) -> (r: Self::Config)
        requires
            self.valid(),
        ensures
            r == self.settings(),
    ;
}

/// Why bytes cannot be opened: there is too much of them or of what the settings ask for, or they
/// are not those of a store.
pub open spec fn unopened(oversized: bool) -> StorageError {
    if oversized {
        StorageError::StorageFull
    } else {
        StorageError::InvalidData
    }
}

/// A store that can be kept as bytes and opened again.
pub trait DurableStorage: Storage {
    type Data;

    /// What the store holds.
    spec fn data(&self) -> Self::Data;

    /// What a new store holds.
    spec fn nothing() -> Self::Data;

    /// No more is taken up than in a new store.
    spec fn fresh(&self) -> bool;

    /// The settings can be met.
    spec fn feasible(config: Self::Config) -> bool;

    /// A store with these settings outlives the process that made it.
    spec fn durable(config: Self::Config) -> bool;

    /// The bytes keep a store with these settings that holds `data`.
    spec fn keeps(config: Self::Config, image: Seq<u8>, data: Self::Data) -> bool;

    /// The bytes can be opened with these settings.
    spec fn opens(config: Self::Config, image: Seq<u8>) -> bool;

    /// The bytes are too many, or the settings ask for more than a store can have.
    spec fn oversized(config: Self::Config, image: Seq<u8>) -> bool;

    /// Bytes keep one content only.
    proof fn keeps_one(config: Self::Config, image: Seq<u8>, a: Self::Data, b: Self::Data)
        requires
            Self::keeps(config, image, a),
            Self::keeps(config, image, b),
        ensures
            a == b,
    ;

    /// There is room to give up what is no longer used.
    spec fn compactable(&self) -> bool;

    /// Nothing that is no longer used takes up space in what became of the store.
    spec fn compacted(&self, to: &Self) -> bool;

    /// A new store.
    fn create(config: Self::Config) -> (r: Result<Self, StorageError>)
        ensures
            r is Ok <==> Self::feasible(config),
            r matches Ok(t) ==> t.valid() && t.settings() == config && t.data() == Self::nothing() && t.fresh(),
            r matches Err(e) ==> e == StorageError::StorageFull,
    ;

    /// The store that the bytes keep.
    fn open(image: Vec<u8>, config: Self::Config) -> (r: Result<Self, StorageError>)
        ensures
            r is Ok <==> Self::opens(config, image@),
            r matches Err(e) ==> e == unopened(Self::oversized(config, image@)),
            forall|data: Self::Data| #[trigger]
                Self::keeps(config, image@, data) ==> match r {
                    Ok(t) => t.valid() && t.settings() == config && t.data() == data,
                    Err(_) => Self::oversized(config, image@),
                },
    ;

    /// Gives up space that is no longer used.
    fn compact(&mut self) -> (r: Result<(), StorageError>)
        requires
            old(self).valid(),
        ensures
            final(self).valid(),
            final(self).settings() == old(self).settings(),
            final(self).data() == old(self).data(),
            old(self).compactable() ==> r is Ok,
            match r {
                Ok(_) => old(self).compacted(final(self)),
                Err(e) => e == StorageError::StorageFull && *final(self) == *old(self),
            },
    ;

    /// The bytes that keep the store.
    fn image(&self) -> (r: Vec<u8>)
        requires
            self.valid(),
        ensures
            Self::durable(self.settings()) ==> Self::keeps(self.settings(), r@, self.data()),
    ;
}

/// Reading keys and values.
pub trait ReadBackend: Storage {
    /// The value under each key.
    spec fn map(&self) -> Map<Seq<u8>, Seq<u8>>;

    /// Entries come in key order.
    spec fn in_order(&self) -> bool;

    /// The value under a key.
    fn get(&self, key: &Vec<u8>) -> (r: Option<Vec<u8>>)
        requires
            self.valid(),
        ensures
            maps::holds(self.map(), key@, r),
    ;

    fn contains(&self, key: &Vec<u8>) -> (r: bool)
        requires
            self.valid(),
        ensures
            r == self.map().contains_key(key@),
    {
        self.get(key).is_some()
    }

    fn keys(&self) -> (r: Vec<Vec<u8>>)
        requires
            self.valid(),
        ensures
            maps::lists_keys(self.map(), r@),
            self.in_order() ==> maps::rising(r@),
    ;

    /// The values in the order of their keys.
    fn values(&self) -> (r: Vec<Vec<u8>>)
        requires
            self.valid(),
        ensures
            exists|keys: Seq<Vec<u8>>|
                maps::lists_keys(self.map(), keys) && (self.in_order() ==> maps::rising(keys))
                    && #[trigger] maps::values_under(self.map(), keys, r@),
    ;

    fn entries(&self) -> (r: Vec<(Vec<u8>, Vec<u8>)>)
        requires
            self.valid(),
        ensures
            maps::lists_entries(self.map(), r@),
            self.in_order() ==> maps::ascending(r@),
    ;

    /// The number of entries.
    fn size(&self) -> (r: usize)
        requires
            self.valid(),
        ensures
            self.map().dom().finite(),
            r == self.map().len(),
    ;

    fn is_empty(&self) -> (r: bool)
        requires
            self.valid(),
        ensures
            r == (self.map() == Map::<Seq<u8>, Seq<u8>>::empty()),
    {
        let n: usize = self.size();
        proof {
            lemma_empty(self.map());
        }
        n == 0
    }
}

/// A finite map is empty where it has no entries.
pub proof fn lemma_empty(m: Map<Seq<u8>, Seq<u8>>)
    requires
        m.dom().finite(),
    ensures
        m.len() == 0 <==> m == Map::<Seq<u8>, Seq<u8>>::empty(),
{
    if m.len() == 0 {
        assert(m.dom() =~= Set::empty());
        assert(m =~= Map::empty());
    }
}

/// What became of a put.
pub open spec fn put_done(
    room: bool,
    before: Map<Seq<u8>, Seq<u8>>,
    after: Map<Seq<u8>, Seq<u8>>,
    key: Seq<u8>,
    value: Seq<u8>,
    r: Result<(), StorageError>,
) -> bool {
    match r {
        Ok(_) => room && after == before.insert(key, value),
        Err(e) => !room && after == before && e == StorageError::StorageFull,
    }
}

/// What became of a delete.
pub open spec fn delete_done(
    can: bool,
    before: Map<Seq<u8>, Seq<u8>>,
    after: Map<Seq<u8>, Seq<u8>>,
    key: Seq<u8>,
    r: Result<(), StorageError>,
) -> bool {
    match r {
        Ok(_) => can && after == before.remove(key),
        Err(e) => !can && after == before && e == StorageError::StorageFull,
    }
}

/// What a put leaves of a store.
pub open spec fn after_put<S: WriteBackend>(s: S, t: S, key: Seq<u8>, value: Seq<u8>) -> bool {
    &&& t.valid()
    &&& t.settings() == s.settings()
    &&& t.map() == s.map().insert(key, value)
    &&& s.put_makes(&t, key, value)
}

/// What a delete leaves of a store.
pub open spec fn after_delete<S: WriteBackend>(s: S, t: S, key: Seq<u8>) -> bool {
    &&& t.valid()
    &&& t.settings() == s.settings()
    &&& t.map() == s.map().remove(key)
    &&& s.delete_makes(&t, key)
}

/// What entries that are put one after the other leave of a store.
pub open spec fn after_puts<S: WriteBackend>(s: S, t: S, items: Seq<(Vec<u8>, Vec<u8>)>) -> bool
    decreases items.len(),
{
    if items.len() == 0 {
        t == s
    } else {
        exists|u: S|
            after_puts(s, u, items.drop_last()) && #[trigger] after_put(u, t, items.last().0@, items.last().1@)
    }
}

/// Each of the entries finds room once those before it are put.
pub open spec fn room_in_turn<S: WriteBackend>(s: S, items: Seq<(Vec<u8>, Vec<u8>)>) -> bool {
    forall|t: S, n: int|
        0 <= n < items.len() && #[trigger] after_puts(s, t, items.take(n)) ==> t.room(items[n].0@, items[n].1@)
}

/// Writing keys and values.
pub trait WriteBackend: ReadBackend {
    /// A store with these settings takes entries of these sizes.
    spec fn takes(config: Self::Config, key: Seq<u8>, value: Seq<u8>) -> bool;

    /// A store with these settings takes keys of this size.
    spec fn takes_key(config: Self::Config, key: Seq<u8>) -> bool;

    /// There is room to put the entry.
    spec fn room(&self, key: Seq<u8>, value: Seq<u8>) -> bool;

    /// There is room to delete the key. What is not there can always be deleted.
    spec fn can_delete(&self, key: Seq<u8>) -> bool;

    /// What a put makes of the store, beside its entries.
    spec fn put_makes(&self, to: &Self, key: Seq<u8>, value: Seq<u8>) -> bool;

    /// What a delete makes of the store, beside its entries.
    spec fn delete_makes(&self, to: &Self, key: Seq<u8>) -> bool;

    /// The store, which is empty, can be built from these entries at once.
    spec fn buildable(&self, items: Seq<(Vec<u8>, Vec<u8>)>) -> bool;

    /// There is room to put entries in key order.
    spec fn room_for_all(&self, items: Seq<(Vec<u8>, Vec<u8>)>) -> bool;

    /// There is room to delete keys that do not fall.
    spec fn can_delete_all(&self, keys: Seq<Vec<u8>>) -> bool;

    /// Inserts or overwrites an entry.
    fn put(&mut self, key: Vec<u8>, value: Vec<u8>) -> (r: Result<(), StorageError>)
        requires
            old(self).valid(),
            Self::takes(old(self).settings(), key@, value@),
        ensures
            final(self).valid(),
            final(self).settings() == old(self).settings(),
            put_done(old(self).room(key@, value@), old(self).map(), final(self).map(), key@, value@, r),
            match r {
                Ok(_) => old(self).put_makes(final(self), key@, value@),
                Err(_) => !final(self).room(key@, value@),
            },
            r is Ok ==> final(self).map() == old(self).map().insert(key@, value@),
            r is Err ==> final(self).map() == old(self).map(),
    ;

    /// Inserts an entry where the key is not there. Gives whether it did.
    fn put_if_absent(&mut self, key: &Vec<u8>, value: Vec<u8>) -> (r: Result<bool, StorageError>)
        requires
            old(self).valid(),
            Self::takes(old(self).settings(), key@, value@),
        ensures
            final(self).valid(),
            final(self).settings() == old(self).settings(),
            match r {
                Ok(true) => !old(self).map().contains_key(key@) && old(self).room(key@, value@) && final(self).map()
                    == old(self).map().insert(key@, value@) && old(self).put_makes(final(self), key@, value@),
                Ok(false) => old(self).map().contains_key(key@) && *final(self) == *old(self),
                Err(e) => !old(self).map().contains_key(key@) && !old(self).room(key@, value@) && final(self).map()
                    == old(self).map() && e == StorageError::StorageFull,
            },
    {
        if self.contains(key) {
            Ok(false)
        } else {
            match self.put(key.duplicate(), value) {
                Ok(_) => Ok(true),
                Err(e) => Err(e),
            }
        }
    }

    /// Inserts or overwrites an entry and gives the value before.
    fn replace(&mut self, key: &Vec<u8>, value: Vec<u8>) -> (r: Result<Option<Vec<u8>>, StorageError>)
        requires
            old(self).valid(),
            Self::takes(old(self).settings(), key@, value@),
        ensures
            final(self).valid(),
            final(self).settings() == old(self).settings(),
            match r {
                Ok(prev) => old(self).room(key@, value@) && maps::holds(old(self).map(), key@, prev) && final(
                    self).map() == old(self).map().insert(key@, value@) && old(self).put_makes(
                    final(self),
                    key@,
                    value@,
                ),
                Err(e) => !old(self).room(key@, value@) && final(self).map() == old(self).map() && e
                    == StorageError::StorageFull,
            },
    {
        let previous: Option<Vec<u8>> = self.get(key);
        match self.put(key.duplicate(), value) {
            Ok(_) => Ok(previous),
            Err(e) => Err(e),
        }
    }

    /// Puts entries one after the other, up to the first that finds no room.
    fn bulk_put(&mut self, items: Vec<(Vec<u8>, Vec<u8>)>) -> (r: Result<(), StorageError>)
        requires
            old(self).valid(),
            forall|i: int|
                0 <= i < items@.len() ==> Self::takes(old(self).settings(), (#[trigger] items@[i]).0@, items@[i].1@),
        ensures
            final(self).valid(),
            final(self).settings() == old(self).settings(),
            match r {
                Ok(_) => final(self).map() == maps::put_all(old(self).map(), items@),
                Err(e) => e == StorageError::StorageFull && exists|n: int|
                    0 <= n < items@.len() && final(self).map() == maps::put_all(
                        old(self).map(),
                        #[trigger] items@.take(n),
                    ) && !final(self).room(items@[n].0@, items@[n].1@),
            },
    {
        let mut i: usize = 0;
        assert(items@.take(0) =~= Seq::<(Vec<u8>, Vec<u8>)>::empty());
        while i < items.len()
            invariant
                0 <= i <= items@.len(),
                self.valid(),
                self.settings() == old(self).settings(),
                forall|j: int|
                    0 <= j < items@.len() ==> Self::takes(
                        old(self).settings(),
                        (#[trigger] items@[j]).0@,
                        items@[j].1@,
                    ),
                self.map() == maps::put_all(old(self).map(), items@.take(i as int)),
            decreases items@.len() - i,
        {
            assert(Self::takes(old(self).settings(), items@[i as int].0@, items@[i as int].1@));
            match self.put(items[i].0.duplicate(), items[i].1.duplicate()) {
                Ok(_) => {},
                Err(e) => {
                    assert(self.map() == maps::put_all(old(self).map(), items@.take(i as int)));
                    return Err(e);
                },
            }
            assert(items@.take(i + 1).drop_last() =~= items@.take(i as int));
            i = i + 1;
        }
        assert(items@.take(i as int) =~= items@);
        Ok(())
    }

    /// Puts entries in key order, the last of equal keys staying. An empty store may be built from
    /// rising entries at once.
    fn bulk_put_sorted(&mut self, items: Vec<(Vec<u8>, Vec<u8>)>) -> (r: Result<(), StorageError>)
        requires
            old(self).valid(),
            maps::nondecreasing(items@),
            forall|i: int|
                0 <= i < items@.len() ==> Self::takes(old(self).settings(), (#[trigger] items@[i]).0@, items@[i].1@),
        ensures
            final(self).valid(),
            final(self).settings() == old(self).settings(),
            old(self).room_for_all(items@) ==> r is Ok,
            match r {
                Ok(_) => final(self).map() == maps::put_all(old(self).map(), items@),
                Err(e) => {
                    &&& e == StorageError::StorageFull
                    &&& {
                        ||| {
                            &&& old(self).map() == Map::<Seq<u8>, Seq<u8>>::empty()
                            &&& maps::ascending(items@)
                            &&& !old(self).buildable(items@)
                            &&& final(self).map() == old(self).map()
                        }
                        ||| exists|n: int|
                            0 <= n < items@.len() && final(self).map() == maps::put_all(
                                old(self).map(),
                                #[trigger] items@.take(n),
                            )
                    }
                },
            },
    ;

    /// Removes a key. Gives whether it was there.
    fn delete(&mut self, key: &Vec<u8>) -> (r: Result<bool, StorageError>)
        requires
            old(self).valid(),
        ensures
            final(self).valid(),
            final(self).settings() == old(self).settings(),
            match r {
                Ok(was) => was == old(self).map().contains_key(key@) && old(self).can_delete(key@) && final(self).map()
                    == old(self).map().remove(key@),
                Err(e) => !old(self).can_delete(key@) && *final(self) == *old(self) && e
                    == StorageError::StorageFull,
            },
            r is Ok ==> old(self).delete_makes(final(self), key@),
    ;

    /// Removes keys, up to the first that cannot be. Gives how many were there.
    fn bulk_delete(&mut self, keys: &Vec<Vec<u8>>) -> (r: Result<usize, StorageError>)
        requires
            old(self).valid(),
        ensures
            final(self).valid(),
            final(self).settings() == old(self).settings(),
            match r {
                Ok(n) => final(self).map() == maps::without(old(self).map(), keys@, keys@.len() as int) && n == old(
                    self,
                ).map().len() - final(self).map().len(),
                Err(e) => e == StorageError::StorageFull && exists|n: int|
                    0 <= n < keys@.len() && #[trigger] maps::without(old(self).map(), keys@, n) == final(self).map()
                        && !final(self).can_delete(keys@[n]@),
            },
    {
        let ghost start = self.map();
        let all: usize = self.size();
        let mut n: usize = 0;
        let mut i: usize = 0;
        assert(maps::without(start, keys@, 0) =~= start);
        while i < keys.len()
            invariant
                0 <= i <= keys@.len(),
                self.valid(),
                self.settings() == old(self).settings(),
                start == old(self).map(),
                start.dom().finite(),
                start.len() == all,
                self.map() == maps::without(start, keys@, i as int),
                self.map().dom().finite(),
                n + self.map().len() == start.len(),
            decreases keys@.len() - i,
        {
            let ghost before = self.map();
            match self.delete(&keys[i]) {
                Ok(was) => {
                    proof {
                        maps::lemma_without_next(start, keys@, i as int);
                        assert(self.map().dom() =~= before.dom().remove(keys@[i as int]@));
                    }
                    if was {
                        n = n + 1;
                    }
                },
                Err(e) => {
                    assert(maps::without(old(self).map(), keys@, i as int) == self.map());
                    return Err(e);
                },
            }
            i = i + 1;
        }
        Ok(n)
    }

    /// Removes keys that do not fall. Gives how many were there.
    fn bulk_delete_sorted(&mut self, keys: &Vec<Vec<u8>>) -> (r: Result<usize, StorageError>)
        requires
            old(self).valid(),
            maps::rising(keys@),
        ensures
            final(self).valid(),
            final(self).settings() == old(self).settings(),
            old(self).can_delete_all(keys@) ==> r is Ok,
            match r {
                Ok(n) => final(self).map() == maps::without(old(self).map(), keys@, keys@.len() as int) && n == old(
                    self,
                ).map().len() - final(self).map().len(),
                Err(e) => e == StorageError::StorageFull && exists|n: int|
                    0 <= n < keys@.len() && #[trigger] maps::without(old(self).map(), keys@, n) == final(self).map(),
            },
    ;

    /// Replaces the value of `key` by what `f` makes of it; `None` stands for no entry on either
    /// side.
    fn update<F: FnOnce(Option<Vec<u8>>) -> Option<Vec<u8>>>(&mut self, key: &Vec<u8>, f: F) -> (r: Result<
        (),
        StorageError,
    >)
        requires
            old(self).valid(),
            Self::takes_key(old(self).settings(), key@),
            forall|cur: Option<Vec<u8>>| #[trigger]
                maps::holds(old(self).map(), key@, cur) ==> call_requires(f, (cur,)),
            forall|cur: Option<Vec<u8>>, out: Vec<u8>|
                maps::holds(old(self).map(), key@, cur) && #[trigger] call_ensures(f, (cur,), Some(out))
                    ==> Self::takes(old(self).settings(), key@, out@),
        ensures
            final(self).valid(),
            final(self).settings() == old(self).settings(),
            exists|cur: Option<Vec<u8>>, out: Option<Vec<u8>>| #[trigger]
                call_ensures(f, (cur,), out) && maps::holds(old(self).map(), key@, cur) && match out {
                    Some(v) => {
                        &&& put_done(old(self).room(key@, v@), old(self).map(), final(self).map(), key@, v@, r)
                        &&& r is Ok ==> old(self).put_makes(final(self), key@, v@)
                    },
                    None => {
                        &&& delete_done(old(self).can_delete(key@), old(self).map(), final(self).map(), key@, r)
                        &&& r is Ok ==> old(self).delete_makes(final(self), key@)
                    },
                },
            // The value there was is handed over, and what comes back takes its place.
            r is Ok ==> exists|cur: Option<Vec<u8>>, out: Option<Vec<u8>>| #[trigger]
                call_ensures(f, (cur,), out) && (match cur {
                    Some(v) => old(self).map().contains_key(key@) && old(self).map()[key@] == v@,
                    None => !old(self).map().contains_key(key@),
                }) && (match out {
                    Some(v) => final(self).map() == old(self).map().insert(key@, v@),
                    None => final(self).map() == old(self).map().remove(key@),
                }),
            r is Err ==> final(self).map() == old(self).map(),
    {
        let current: Option<Vec<u8>> = self.get(key);
        let ghost seen = current;
        let out: Option<Vec<u8>> = f(current);
        assert(call_ensures(f, (seen,), out));
        match out {
            Some(value) => self.put(key.duplicate(), value),
            None => match self.delete(key) {
                Ok(_) => Ok(()),
                Err(e) => Err(e),
            },
        }
    }

    /// Removes all entries.
    fn clear(&mut self) -> (r: Result<(), StorageError>)
        requires
            old(self).valid(),
        ensures
            final(self).valid(),
            final(self).settings() == old(self).settings(),
            r is Ok,
            final(self).map() == Map::<Seq<u8>, Seq<u8>>::empty(),
    ;
}

/// Reading in key order.
pub trait OrderedReadBackend: ReadBackend {
    /// The entries with keys from `start` on and before `end`, in key order.
    fn range(&self, start: &Vec<u8>, end: &Vec<u8>) -> (r: Vec<(Vec<u8>, Vec<u8>)>)
        requires
            self.valid(),
        ensures
            maps::ascending(r@),
            maps::map_of(r@) == maps::between(self.map(), start@, Some(end@)),
    ;

    /// The entry with the least key.
    fn first(&self) -> (r: Option<(Vec<u8>, Vec<u8>)>)
        requires
            self.valid(),
        ensures
            maps::is_first(self.map(), r),
    {
        let all: Vec<(Vec<u8>, Vec<u8>)> = self.entries();
        lists::extreme(&all, false)
    }

    /// The entry with the greatest key.
    fn last(&self) -> (r: Option<(Vec<u8>, Vec<u8>)>)
        requires
            self.valid(),
        ensures
            maps::is_last(self.map(), r),
    {
        let all: Vec<(Vec<u8>, Vec<u8>)> = self.entries();
        lists::extreme(&all, true)
    }

    /// The entries in falling key order.
    fn entries_rev(&self) -> (r: Vec<(Vec<u8>, Vec<u8>)>)
        requires
            self.valid(),
        ensures
            maps::descending(r@),
            maps::map_of(r@) == self.map(),
    ;

    /// The entries with keys from `start` on and before `end`, in falling key order.
    fn range_rev(&self, start: &Vec<u8>, end: &Vec<u8>) -> (r: Vec<(Vec<u8>, Vec<u8>)>)
        requires
            self.valid(),
        ensures
            maps::descending(r@),
            maps::map_of(r@) == maps::between(self.map(), start@, Some(end@)),
    ;
}

/// A store whose entries are in key order by nature. What it does not offer itself is made from
/// its entries and ranges.
pub trait OrderedBackend: WriteBackend {
    /// The entries with keys from `start` on and before `end`, in key order.
    fn range(&self, start: &Vec<u8>, end: &Vec<u8>) -> (r: Vec<(Vec<u8>, Vec<u8>)>)
        requires
            self.valid(),
        ensures
            maps::ascending(r@),
            maps::map_of(r@) == maps::between(self.map(), start@, Some(end@)),
    ;

    /// The entry with the least key.
    fn first(&self) -> (r: Option<(Vec<u8>, Vec<u8>)>)
        requires
            self.valid(),
        ensures
            maps::is_first(self.map(), r),
    {
        let all: Vec<(Vec<u8>, Vec<u8>)> = self.entries();
        lists::extreme(&all, false)
    }

    /// The entry with the greatest key.
    fn last(&self) -> (r: Option<(Vec<u8>, Vec<u8>)>)
        requires
            self.valid(),
        ensures
            maps::is_last(self.map(), r),
    {
        let all: Vec<(Vec<u8>, Vec<u8>)> = self.entries();
        lists::extreme(&all, true)
    }

    /// The entries in falling key order.
    fn entries_rev(&self) -> (r: Vec<(Vec<u8>, Vec<u8>)>)
        requires
            self.valid(),
            self.in_order(),
        ensures
            maps::descending(r@),
            maps::map_of(r@) == self.map(),
    {
        let all: Vec<(Vec<u8>, Vec<u8>)> = self.entries();
        maps::backwards(all)
    }

    /// The entries with keys from `start` on and before `end`, in falling key order.
    fn range_rev(&self, start: &Vec<u8>, end: &Vec<u8>) -> (r: Vec<(Vec<u8>, Vec<u8>)>)
        requires
            self.valid(),
        ensures
            maps::descending(r@),
            maps::map_of(r@) == maps::between(self.map(), start@, Some(end@)),
    {
        let all: Vec<(Vec<u8>, Vec<u8>)> = self.range(start, end);
        maps::backwards(all)
    }
}

/// A store that took entries one after the other has them, the last of equal keys staying.
pub proof fn puts_leave_what_was_put<S: WriteBackend>(s: S, t: S, items: Seq<(Vec<u8>, Vec<u8>)>)
    requires
        s.valid(),
        after_puts(s, t, items),
    ensures
        t.valid(),
        t.settings() == s.settings(),
        t.map() == maps::put_all(s.map(), items),
    decreases items.len(),
{
    if items.len() > 0 {
        let u = choose|u: S|
            after_puts(s, u, items.drop_last()) && #[trigger] after_put(u, t, items.last().0@, items.last().1@);
        puts_leave_what_was_put(s, u, items.drop_last());
    }
}

} // verus!
