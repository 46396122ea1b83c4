use zendb_storage::backend::state::{State, StateConfig};
use zendb_storage::backend::traits::{DurableStorage, OrderedReadBackend, ReadBackend, WriteBackend};
use zendb_storage::engine::btree::BPlusTreeConfig;
use zendb_storage::engine::keydir::{KeyDir, KeyDirConfig};
use zendb_storage::engine::skiplist::{SkipList, SkipListCapacity, SkipListConfig};
use zendb_storage::error::StorageError;

fn b(n: u64) -> Vec<u8> {
    n.to_be_bytes().to_vec()
}

fn keys(rows: Vec<(Vec<u8>, Vec<u8>)>) -> Vec<Vec<u8>> {
    rows.into_iter().map(|(k, _)| k).collect()
}

#[test]
fn in_memory_state_uses_skiplist_without_creating_a_file() {
    let mut state = State::create(StateConfig::InMemory(SkipListConfig::default())).unwrap();
    state.put(b(2), b(20)).unwrap();
    state.put(b(1), b(10)).unwrap();

    assert!(matches!(state, State::InMemory { .. }));
    assert_eq!(state.keys(), vec![b(1), b(2)]);
    assert!(state.image().is_empty());
}

#[test]
fn drop_flushes_ordered_state() {
    let config = StateConfig::Ordered(BPlusTreeConfig::default());
    let image = {
        let mut state = State::create(config).unwrap();
        state.put(b(1), b(10)).unwrap();
        state.image()
    };

    let state = State::open(image, config).unwrap();
    assert_eq!(state.get(&b(1)), Some(b(10)));
}

#[test]
fn drop_flushes_unordered_state() {
    let config = StateConfig::Unordered(KeyDirConfig::default());
    let image = {
        let mut state = State::create(config).unwrap();
        state.put(b(1), b(10)).unwrap();
        state.image()
    };

    let state = State::open(image, config).unwrap();
    assert_eq!(state.get(&b(1)), Some(b(10)));
}

fn ordered_reads<T: OrderedReadBackend>(state: &T) {
    assert_eq!(state.first().map(|(key, _)| key), Some(b(1)));
    assert_eq!(state.last().map(|(key, _)| key), Some(b(3)));
    assert_eq!(state.range(&b(1), &b(3)), vec![(b(1), b(10)), (b(2), b(20))]);
    assert_eq!(keys(state.entries_rev()), vec![b(3), b(2), b(1)]);
    assert_eq!(keys(state.range_rev(&b(1), &b(3))), vec![b(2), b(1)]);
}

#[test]
fn ordered_reads_dispatch_to_ordered_state_backends() {
    let mut state = State::InMemory {
        backend: SkipList::new(SkipListConfig::default()),
        config: StateConfig::InMemory(SkipListConfig::default()),
    };
    state.put(b(2), b(20)).unwrap();
    state.put(b(1), b(10)).unwrap();
    state.put(b(3), b(30)).unwrap();
    ordered_reads(&state);
}

#[test]
fn unordered_state_materializes_order_only_for_ordered_reads() {
    let mut state = State::Unordered {
        backend: KeyDir::create(KeyDirConfig::default()).unwrap(),
        config: StateConfig::Unordered(KeyDirConfig::default()),
    };
    state.put(b(2), b(20)).unwrap();
    state.put(b(1), b(10)).unwrap();
    state.put(b(3), b(30)).unwrap();
    ordered_reads(&state);
}

#[test]
fn state_ordered_tree_reads_in_order() {
    let mut state = State::create(StateConfig::default()).unwrap();
    state.bulk_put(vec![(b(2), b(20)), (b(1), b(10)), (b(3), b(30))]).unwrap();
    assert!(matches!(state, State::Ordered { .. }));
    ordered_reads(&state);
    state.compact().unwrap();
    ordered_reads(&state);
}

#[test]
fn state_writes_do_the_same_in_every_store() {
    let configs = [
        StateConfig::Ordered(BPlusTreeConfig::default()),
        StateConfig::Unordered(KeyDirConfig::default()),
        StateConfig::InMemory(SkipListConfig::default()),
    ];
    for config in configs {
        let mut state = State::create(config).unwrap();
        assert!(state.put_if_absent(&b(1), b(10)).unwrap());
        assert!(!state.put_if_absent(&b(1), b(11)).unwrap());
        assert_eq!(state.replace(&b(1), b(12)).unwrap(), Some(b(10)));
        assert_eq!(state.replace(&b(2), b(20)).unwrap(), None);
        state.update(&b(2), |v| v.map(|_| b(21))).unwrap();
        state.bulk_put_sorted(vec![(b(3), b(30)), (b(4), b(40)), (b(5), b(50))]).unwrap();
        assert_eq!(state.bulk_delete_sorted(&vec![b(3), b(9)]).unwrap(), 1);
        assert_eq!(state.bulk_delete(&vec![b(4), b(4)]).unwrap(), 1);
        assert!(state.delete(&b(5)).unwrap());
        assert_eq!(state.range(&b(0), &b(9)), vec![(b(1), b(12)), (b(2), b(21))]);
        assert_eq!(state.size(), 2);
        assert!(state.contains(&b(1)));
        state.clear().unwrap();
        assert!(state.is_empty());
    }
}

#[test]
fn state_refuses_what_it_cannot_hold() {
    let small = SkipListConfig { capacity: SkipListCapacity::Bounded { max_entries: 1 } };
    let mut state = State::create(StateConfig::InMemory(small)).unwrap();
    state.put(b(1), b(10)).unwrap();
    assert_eq!(state.put(b(2), b(20)), Err(StorageError::StorageFull));
    assert!(state.accepts(&vec![0; 100_000], &vec![]));
    let state = State::create(StateConfig::default()).unwrap();
    assert!(state.accepts(&vec![0; 1000], &vec![]));
    assert!(!state.accepts(&vec![0; 100_000], &vec![]));
    assert_eq!(State::open(vec![1, 2, 3], StateConfig::default()).err(), Some(StorageError::InvalidData));
}

#[test]
fn state_puts_in_key_order_up_to_where_it_is_full() {
    let capacity = SkipListCapacity::Bounded { max_entries: 2 };
    let mut state = State::create(StateConfig::InMemory(SkipListConfig { capacity })).unwrap();
    assert!(state.bulk_put_sorted(vec![(b(1), b(10)), (b(2), b(20))]).is_ok());
    let more = vec![(b(2), b(21)), (b(3), b(30)), (b(4), b(40))];
    assert_eq!(state.bulk_put_sorted(more), Err(StorageError::StorageFull));
    assert_eq!(state.entries(), vec![(b(1), b(10)), (b(2), b(21))]);
    assert_eq!(state.bulk_delete_sorted(&vec![b(0), b(1), b(2)]), Ok(2));
    assert!(state.is_empty());
}

#[test]
fn state_says_why_bytes_do_not_open() {
    let tree = StateConfig::Ordered(BPlusTreeConfig::default());
    let dir = StateConfig::Unordered(KeyDirConfig::default());
    assert_eq!(State::open(vec![1; 4096], tree).err(), Some(StorageError::InvalidData));
    assert_eq!(State::open(vec![1; 4096], dir).err(), Some(StorageError::InvalidData));
    let image = State::create(dir).unwrap().image();
    let large = StateConfig::Unordered(KeyDirConfig { initial_capacity: u64::MAX, ..KeyDirConfig::default() });
    assert_eq!(State::open(image, large).err(), Some(StorageError::StorageFull));
}

#[test]
fn state_that_is_new_has_room() {
    let list = StateConfig::InMemory(SkipListConfig::default());
    let tree = StateConfig::Ordered(BPlusTreeConfig::default());
    let dir = StateConfig::Unordered(KeyDirConfig::default());
    for config in [list, tree, dir] {
        let mut state = State::create(config).unwrap();
        state.put(b(1), vec![7; 100_000]).unwrap();
        assert_eq!(state.get(&b(1)), Some(vec![7; 100_000]));
    }
}
