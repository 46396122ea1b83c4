use std::sync::atomic::{AtomicUsize, Ordering};
use zendb_storage::engine::skiplist::{SkipList, SkipListCapacity, SkipListConfig, SkipListStats};
use zendb_storage::error::StorageError;

static UPDATE_CLONES: AtomicUsize = AtomicUsize::new(0);

#[derive(Debug, PartialEq, Eq)]
struct CloneTracked(u64);

impl Clone for CloneTracked {
    fn clone(&self) -> Self {
        UPDATE_CLONES.fetch_add(1, Ordering::Relaxed);
        Self(self.0)
    }
}

fn list() -> SkipList<u64, u64> {
    SkipList::new(SkipListConfig::default())
}

fn bounded(max_entries: usize) -> SkipList<u64, u64> {
    SkipList::new(SkipListConfig { capacity: SkipListCapacity::Bounded { max_entries } })
}

#[test]
fn inserts_overwrites_and_iterates_in_order() {
    let mut list = list();
    list.put(3, 30).unwrap();
    list.put(1, 10).unwrap();
    list.put(2, 20).unwrap();
    list.put(2, 200).unwrap();

    let entries: Vec<_> = list.entries().into_iter().map(|(key, value)| (*key, *value)).collect();
    assert_eq!(entries, vec![(1, 10), (2, 200), (3, 30)]);
    assert_eq!(list.stats().entries, 3);
}

#[test]
fn delete_and_reinsert_preserve_links() {
    let mut list = list();
    list.bulk_put(vec![(1, 10), (2, 20), (3, 30), (4, 40)]).unwrap();

    assert!(list.delete(&2).unwrap());
    assert!(list.delete(&4).unwrap());
    assert!(!list.delete(&9).unwrap());
    list.put(2, 200).unwrap();

    let keys: Vec<_> = list.keys().into_iter().map(|key| *key).collect();
    assert_eq!(keys, vec![1, 2, 3]);
    assert_eq!(*list.get(&2).unwrap(), 200);
}

#[test]
fn ordered_operations_use_half_open_ranges() {
    let mut list = list();
    list.bulk_put(vec![(1, 10), (2, 20), (3, 30), (4, 40)]).unwrap();

    let forward: Vec<_> = list.range(&2, &4).into_iter().map(|(key, _)| *key).collect();
    let reverse: Vec<_> = list.range_rev(&2, &4).into_iter().map(|(key, _)| *key).collect();
    let all_reverse: Vec<_> = list.entries_rev().into_iter().map(|(key, _)| *key).collect();

    assert_eq!(forward, vec![2, 3]);
    assert_eq!(reverse, vec![3, 2]);
    assert_eq!(all_reverse, vec![4, 3, 2, 1]);
    assert_eq!(list.first().map(|(key, _)| *key), Some(1));
    assert_eq!(list.last().map(|(key, _)| *key), Some(4));
}

#[test]
fn bulk_put_sorted_merges_and_overwrites_in_order() {
    let mut list = list();
    list.bulk_put(vec![(1, 10), (3, 30), (5, 50)]).unwrap();

    list.bulk_put_sorted(vec![(2, 20), (3, 300), (3, 333), (4, 40), (6, 60)])
        .unwrap();

    let entries: Vec<_> = list.entries().into_iter().map(|(key, value)| (*key, *value)).collect();
    assert_eq!(
        entries,
        vec![(1, 10), (2, 20), (3, 333), (4, 40), (5, 50), (6, 60)]
    );
    assert_eq!(list.size(), 6);
}

#[test]
fn bulk_delete_sorted_sweeps_hits_and_misses() {
    let mut list = list();
    list.bulk_put_sorted(vec![(1, 10), (2, 20), (3, 30), (4, 40), (5, 50), (6, 60)])
        .unwrap();

    let keys: Vec<u64> = vec![0, 2, 4, 4, 7];
    let removed = list.bulk_delete_sorted(&keys).unwrap();

    assert_eq!(removed, 2);
    let entries: Vec<_> = list.entries().into_iter().map(|(key, value)| (*key, *value)).collect();
    assert_eq!(entries, vec![(1, 10), (3, 30), (5, 50), (6, 60)]);
    assert_eq!(
        list.entries_rev().into_iter().map(|(key, _)| *key).collect::<Vec<_>>(),
        vec![6, 5, 3, 1]
    );
}

#[test]
fn cached_tail_tracks_mutations() {
    let mut list = list();
    list.bulk_put_sorted(vec![(1, 10), (2, 20), (3, 30)]).unwrap();

    assert_eq!(list.last().map(|(key, _)| *key), Some(3));
    assert!(list.delete(&3).unwrap());
    assert_eq!(list.last().map(|(key, _)| *key), Some(2));

    list.put(4, 40).unwrap();
    assert_eq!(
        list.entries_rev().into_iter().map(|(key, _)| *key).collect::<Vec<_>>(),
        vec![4, 2, 1]
    );

    let keys: Vec<u64> = vec![4];
    assert_eq!(list.bulk_delete_sorted(&keys).unwrap(), 1);
    assert_eq!(list.last().map(|(key, _)| *key), Some(2));

    list.clear().unwrap();
    assert_eq!(list.last().map(|(key, _)| *key), None);
    list.put(9, 90).unwrap();
    assert_eq!(list.last().map(|(key, _)| *key), Some(9));
}

#[test]
fn update_existing_moves_value_without_cloning() {
    let mut list: SkipList<u64, CloneTracked> = SkipList::new(SkipListConfig::default());
    list.put(1, CloneTracked(10)).unwrap();

    UPDATE_CLONES.store(0, Ordering::Relaxed);
    list.update(&1, |value| {
        assert_eq!(value, Some(CloneTracked(10)));
        Some(CloneTracked(11))
    })
    .unwrap();

    assert_eq!(UPDATE_CLONES.load(Ordering::Relaxed), 0);
    assert_eq!(*list.get(&1).unwrap(), CloneTracked(11));
}

#[test]
fn bounded_bulk_put_sorted_allows_overwrites_but_rejects_new_overflow() {
    let mut list = bounded(2);
    list.bulk_put_sorted(vec![(1, 10), (2, 20)]).unwrap();

    list.bulk_put_sorted(vec![(1, 100), (2, 200)]).unwrap();
    assert_eq!(*list.get(&1).unwrap(), 100);
    assert_eq!(*list.get(&2).unwrap(), 200);

    let error = list.bulk_put_sorted(vec![(3, 30)]).unwrap_err();
    assert_eq!(error, StorageError::StorageFull);
    assert!(!list.contains(&3));
}

#[test]
fn stats_and_config_are_owned_views() {
    let mut list = list();
    list.put(1, 10).unwrap();

    assert_eq!(list.stats().entries, 1);
    assert_eq!(list.config().capacity, SkipListCapacity::Unbounded);
}

#[test]
fn bounded_preallocates_its_slots() {
    let list = bounded(16);

    assert_eq!(list.slots().0, 16);
    assert_eq!(list.slots().1, 16);
}

#[test]
fn bounded_rejects_only_new_keys_when_full() {
    let mut list = bounded(2);
    list.put(1, 10).unwrap();
    list.put(2, 20).unwrap();

    list.put(2, 200).unwrap();
    assert!(!list.put_if_absent(&2, 300).unwrap());
    let error = list.put(3, 30).unwrap_err();

    assert_eq!(error, StorageError::StorageFull);
    assert_eq!(*list.get(&2).unwrap(), 200);
    assert!(!list.contains(&3));
}

#[test]
fn bounded_reuses_deleted_slots() {
    let mut list = bounded(2);
    list.put(1, 10).unwrap();
    list.put(2, 20).unwrap();
    list.delete(&1).unwrap();

    list.put(3, 30).unwrap();

    assert_eq!(list.size(), 2);
    assert_eq!(list.nodes(), 2);
    assert_eq!(list.keys().into_iter().map(|key| *key).collect::<Vec<_>>(), vec![2, 3]);
}

#[test]
fn bounded_replace_and_update_enforce_capacity() {
    let mut list = bounded(1);
    list.put(1, 10).unwrap();

    assert_eq!(list.replace(&1, 100).unwrap().unwrap(), 10);
    list.update(&1, |value| value.map(|value| value + 1))
        .unwrap();
    assert_eq!(*list.get(&1).unwrap(), 101);

    assert_eq!(
        list.replace(&2, 20).unwrap_err(),
        StorageError::StorageFull
    );
    assert_eq!(
        list.update(&2, |_| Some(20)).unwrap_err(),
        StorageError::StorageFull
    );
    assert!(!list.contains(&2));
}

#[test]
fn zero_capacity_rejects_inserts() {
    let mut list = bounded(0);

    let error = list.put(1, 10).unwrap_err();

    assert_eq!(error, StorageError::StorageFull);
    assert!(list.is_empty());
}

#[test]
fn skiplist_take_hands_the_value_out() {
    let mut list: SkipList<u64, CloneTracked> = SkipList::new(SkipListConfig::default());
    list.put(5, CloneTracked(50)).unwrap();
    assert_eq!(list.take(&5), Some(CloneTracked(50)));
    assert_eq!(list.take(&5), None);
    assert_eq!(list.stats(), SkipListStats { entries: 0 });
}

#[test]
fn skiplist_agrees_with_a_sorted_list() {
    let mut list = list();
    let mut model: Vec<(u64, u64)> = Vec::new();
    let mut x: u64 = 7;
    for i in 0..2000u64 {
        x = x.wrapping_mul(6364136223846793005).wrapping_add(1442695040888963407);
        let key = (x >> 33) % 300;
        let at = model.binary_search_by_key(&key, |p| p.0);
        if i % 3 == 0 {
            assert_eq!(list.delete(&key).unwrap(), at.is_ok());
            if let Ok(at) = at {
                model.remove(at);
            }
        } else {
            list.put(key, i).unwrap();
            match at {
                Ok(at) => model[at].1 = i,
                Err(at) => model.insert(at, (key, i)),
            }
        }
    }
    let entries: Vec<(u64, u64)> = list.entries().into_iter().map(|(k, v)| (*k, *v)).collect();
    assert_eq!(entries, model);
    let mut down: Vec<(u64, u64)> = list.entries_rev().into_iter().map(|(k, v)| (*k, *v)).collect();
    down.reverse();
    assert_eq!(down, model);
    assert_eq!(list.values().len(), model.len());
}
