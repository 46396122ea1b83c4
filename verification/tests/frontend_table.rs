use std::collections::HashMap;
use zendb_storage::backend::state::{StateConfig, StateStats};
use zendb_storage::backend::traits::{ReadBackend, Storage};
use zendb_storage::engine::keydir::KeyDirConfig;
use zendb_storage::engine::skiplist::{SkipListCapacity, SkipListConfig};
use zendb_storage::error::StorageError;
use zendb_storage::frontend::table::{Table, TableConfig};
use zendb_storage::table::change::Event;

/// A row: when it was written, and what is in it.
fn cell(value: i64, at: u64) -> Vec<u8> {
    let mut b = at.to_le_bytes().to_vec();
    b.extend_from_slice(&value.to_le_bytes());
    b
}

fn written_at(row: &[u8]) -> u64 {
    let mut w = [0; 8];
    w.copy_from_slice(&row[..8]);
    u64::from_le_bytes(w)
}

fn value(row: Vec<u8>) -> Option<i64> {
    let mut w = [0; 8];
    w.copy_from_slice(&row[8..]);
    Some(i64::from_le_bytes(w))
}

fn pk(s: &str) -> Vec<u8> {
    s.as_bytes().to_vec()
}

/// The newest write of a row wins; one that is not newer changes nothing.
fn insert(table: &mut Table, key: &str, v: i64, at: u64) -> Result<(), StorageError> {
    let row = cell(v, at);
    let event = Event { author: b"device".to_vec(), sequence: at, primary_key: pk(key), operations: row.clone() };
    table.insert_event(event, |previous| match previous {
        Some(p) if written_at(&p) >= at => None,
        _ => Some(row),
    })
}

fn reopen(table: &Table, config: TableConfig) -> Table {
    let (state, files, offsets) = table.images();
    Table::open(state, files, offsets, config).unwrap()
}

fn state_size(table: &Table) -> usize {
    ReadBackend::size(table) - table.pending()
}

fn manual_config() -> TableConfig {
    TableConfig::default()
}

fn unordered() -> TableConfig {
    TableConfig { state: StateConfig::Unordered(KeyDirConfig::default()), ..TableConfig::default() }
}

fn get(table: &Table, key: &str) -> Option<Vec<u8>> {
    ReadBackend::get(table, &pk(key))
}

#[test]
fn create_owns_configured_backends() {
    let mut table = Table::create(unordered()).unwrap();
    insert(&mut table, "a", 1, 100).unwrap();
    insert(&mut table, "a", 1, 100).unwrap();
    assert_eq!(value(get(&table, "a").unwrap()), Some(1));
    let stats = Storage::stats(&table);
    assert!(matches!(&stats.state, StateStats::Unordered(_)));
    assert_eq!(stats.cache.entries, 1);
    assert_eq!(stats.topic.records, 1);
}

#[test]
fn open_recovers_unflushed_topic_records() {
    let config = TableConfig::default();
    let table = {
        let mut table = Table::create(config).unwrap();
        insert(&mut table, "a", 1, 100).unwrap();
        table
    };

    let table = reopen(&table, config);
    assert_eq!(value(get(&table, "a").unwrap()), Some(1));
    assert_eq!(table.stats().cache.entries, 0);
    assert_eq!(state_size(&table), 1);
    assert_eq!(table.stats().topic.records, 1);
}

#[test]
fn cache_resolves_get_without_materialize() {
    let mut table = Table::create(manual_config()).unwrap();
    insert(&mut table, "a", 1, 100).unwrap();
    insert(&mut table, "a", 2, 200).unwrap();

    let got = get(&table, "a").unwrap();
    assert_eq!(value(got), Some(2));
    assert_eq!(table.stats().cache.entries, 1);
}

#[test]
fn size_is_o1_and_matches_entries_count() {
    let mut table = Table::create(manual_config()).unwrap();
    insert(&mut table, "a", 1, 100).unwrap();
    insert(&mut table, "b", 2, 110).unwrap();
    insert(&mut table, "a", 3, 200).unwrap();
    insert(&mut table, "c", 4, 120).unwrap();

    assert_eq!(ReadBackend::size(&table), 3);
    assert_eq!(ReadBackend::entries(&table).len(), 3);
    assert_eq!(table.stats().cache.entries, 3);
    assert_eq!(table.pending(), 3);
    assert!(!ReadBackend::is_empty(&table));
}

#[test]
fn entries_yields_cache_over_state() {
    let mut table = Table::create(manual_config()).unwrap();
    insert(&mut table, "a", 1, 100).unwrap();
    table.drain_cache().unwrap();
    assert_eq!(table.stats().cache.entries, 0);

    insert(&mut table, "a", 9, 200).unwrap();
    insert(&mut table, "b", 7, 210).unwrap();
    assert_eq!(table.pending(), 1);

    let collected = ReadBackend::entries(&table);
    assert_eq!(collected.len(), 2);
    let map: HashMap<Vec<u8>, Option<i64>> = collected.into_iter().map(|(k, v)| (k, value(v))).collect();
    assert_eq!(map[&pk("a")], Some(9));
    assert_eq!(map[&pk("b")], Some(7));
    assert_eq!(ReadBackend::size(&table), 2);
}

#[test]
fn duplicate_event_does_not_double_apply() {
    let mut table = Table::create(manual_config()).unwrap();
    insert(&mut table, "a", 1, 100).unwrap();
    insert(&mut table, "a", 1, 100).unwrap();
    assert_eq!(table.stats().cache.entries, 1);
    assert_eq!(ReadBackend::size(&table), 1);
    assert_eq!(value(get(&table, "a").unwrap()), Some(1));
}

#[test]
fn materialize_persists_and_clears_cache() {
    let mut table = Table::create(manual_config()).unwrap();
    insert(&mut table, "a", 1, 100).unwrap();
    insert(&mut table, "b", 2, 110).unwrap();
    assert_eq!(table.stats().cache.entries, 2);

    table.drain_cache().unwrap();
    assert_eq!(table.stats().cache.entries, 0);
    assert_eq!(table.pending(), 0);
    assert_eq!(table.stats().topic.records, 2);

    assert_eq!(ReadBackend::size(&table), 2);
    assert_eq!(value(get(&table, "a").unwrap()), Some(1));
}

#[test]
fn bounded_cache_materializes_at_capacity_without_clearing_topic() {
    let config = TableConfig { max_buffered_records: 2, ..TableConfig::default() };
    let mut table = Table::create(config).unwrap();

    insert(&mut table, "a", 1, 100).unwrap();
    insert(&mut table, "b", 2, 110).unwrap();

    assert_eq!(table.stats().cache.entries, 2);
    assert_eq!(state_size(&table), 0);

    insert(&mut table, "c", 3, 120).unwrap();

    assert_eq!(table.stats().cache.entries, 1);
    assert_eq!(state_size(&table), 2);
    assert_eq!(table.pending(), 1);
    assert_eq!(table.stats().topic.records, 3);
}

#[test]
fn sync_materializes_pending_events_before_open() {
    let config = manual_config();
    let table = {
        let mut table = Table::create(config).unwrap();
        insert(&mut table, "a", 1, 100).unwrap();
        insert(&mut table, "a", 2, 200).unwrap();
        insert(&mut table, "b", 5, 150).unwrap();
        table.flush().unwrap();
        table
    };

    let table = reopen(&table, config);
    assert_eq!(table.stats().cache.entries, 0);
    assert_eq!(ReadBackend::size(&table), 2);
    assert_eq!(value(get(&table, "a").unwrap()), Some(2));
    assert_eq!(value(get(&table, "b").unwrap()), Some(5));
}

/// A table with rows a, c and e in the store, and b, another c and d in memory.
fn shadowed_table() -> Table {
    let mut table = Table::create(manual_config()).unwrap();
    insert(&mut table, "a", 1, 100).unwrap();
    insert(&mut table, "c", 3, 101).unwrap();
    insert(&mut table, "e", 5, 102).unwrap();
    table.drain_cache().unwrap();
    insert(&mut table, "c", 99, 200).unwrap();
    insert(&mut table, "b", 2, 201).unwrap();
    insert(&mut table, "d", 4, 202).unwrap();
    table
}

#[test]
fn range_merges_cache_and_state() {
    let table = shadowed_table();
    let got: Vec<(Vec<u8>, Option<i64>)> =
        table.range(&pk("a"), &pk("e")).into_iter().map(|(k, v)| (k, value(v))).collect();
    assert_eq!(got, vec![(pk("a"), Some(1)), (pk("b"), Some(2)), (pk("c"), Some(99)), (pk("d"), Some(4))]);
}

fn collect_pks(rows: Vec<(Vec<u8>, Vec<u8>)>) -> Vec<String> {
    rows.into_iter().map(|(k, _)| String::from_utf8(k).unwrap()).collect()
}

#[test]
fn first_picks_smallest_across_state_and_cache() {
    let table = shadowed_table();
    let (k, v) = table.first().unwrap();
    assert_eq!(k, pk("a"));
    assert_eq!(value(v), Some(1));
}

#[test]
fn first_prefers_cache_when_smaller() {
    let mut table = Table::create(manual_config()).unwrap();
    insert(&mut table, "m", 1, 100).unwrap();
    table.drain_cache().unwrap();
    insert(&mut table, "a", 9, 200).unwrap();

    let (k, _) = table.first().unwrap();
    assert_eq!(k, pk("a"));
}

#[test]
fn first_cache_wins_on_equal_key() {
    let mut table = Table::create(manual_config()).unwrap();
    insert(&mut table, "a", 1, 100).unwrap();
    table.drain_cache().unwrap();
    insert(&mut table, "a", 99, 200).unwrap();

    let (k, v) = table.first().unwrap();
    assert_eq!(k, pk("a"));
    assert_eq!(value(v), Some(99));
}

#[test]
fn last_picks_largest_across_state_and_cache() {
    let table = shadowed_table();
    let (k, v) = table.last().unwrap();
    assert_eq!(k, pk("e"));
    assert_eq!(value(v), Some(5));
}

#[test]
fn last_prefers_cache_when_larger() {
    let mut table = Table::create(manual_config()).unwrap();
    insert(&mut table, "a", 1, 100).unwrap();
    table.drain_cache().unwrap();
    insert(&mut table, "z", 9, 200).unwrap();

    let (k, _) = table.last().unwrap();
    assert_eq!(k, pk("z"));
}

#[test]
fn last_cache_wins_on_equal_key() {
    let mut table = Table::create(manual_config()).unwrap();
    insert(&mut table, "a", 1, 100).unwrap();
    table.drain_cache().unwrap();
    insert(&mut table, "a", 99, 200).unwrap();

    let (k, v) = table.last().unwrap();
    assert_eq!(k, pk("a"));
    assert_eq!(value(v), Some(99));
}

#[test]
fn first_and_last_empty_table() {
    let table = Table::create(manual_config()).unwrap();
    assert!(table.first().is_none());
    assert!(table.last().is_none());
}

#[test]
fn entries_rev_streams_in_descending_order_with_dedup() {
    let table = shadowed_table();
    assert_eq!(collect_pks(table.entries_rev()), vec!["e", "d", "c", "b", "a"]);
    let row = table.entries_rev().into_iter().find(|(k, _)| *k == pk("c")).unwrap().1;
    assert_eq!(value(row), Some(99));
}

#[test]
fn range_rev_streams_in_descending_order_with_dedup() {
    let table = shadowed_table();
    assert_eq!(collect_pks(table.range_rev(&pk("a"), &pk("e"))), vec!["d", "c", "b", "a"]);
}

#[test]
fn frontend_consumer_reads_the_changes() {
    let mut table = Table::create(manual_config()).unwrap();
    let c = table.consumer(&b"watcher".to_vec()).unwrap();
    insert(&mut table, "a", 1, 100).unwrap();
    assert_eq!(table.consumer(&b"watcher".to_vec()).err(), Some(StorageError::AlreadyExists));
    assert_eq!(c.offset(), 0);
    assert_eq!(table.stats().topic.next_offset, 1);
}

#[test]
fn frontend_compaction_drops_what_is_written() {
    let mut table = Table::create(TableConfig {
        topic: zendb_storage::engine::topic::TopicConfig { max_segment_bytes: 16, ..TableConfig::default().topic },
        ..TableConfig::default()
    })
    .unwrap();
    insert(&mut table, "a", 1, 100).unwrap();
    insert(&mut table, "b", 2, 110).unwrap();
    insert(&mut table, "c", 3, 120).unwrap();
    table.flush().unwrap();
    table.compact().unwrap();
    assert_eq!(table.stats().topic.records, 1);
    assert_eq!(ReadBackend::size(&table), 3);
    let table = reopen(&table, table.config());
    assert_eq!(ReadBackend::size(&table), 3);
}

#[test]
fn frontend_refuses_rows_that_no_store_takes() {
    let mut table = Table::create(manual_config()).unwrap();
    let event = Event { author: vec![], sequence: 1, primary_key: vec![7; 5000], operations: vec![] };
    assert_eq!(table.insert_event(event, |_| Some(vec![1])), Err(StorageError::InvalidInput));
    assert_eq!(ReadBackend::size(&table), 0);
    assert_eq!(table.stats().topic.records, 0);
}

#[test]
fn frontend_rows_come_back_from_a_store_that_was_kept_earlier() {
    let config = TableConfig { max_buffered_records: 2, ..TableConfig::default() };
    let mut table = Table::create(config).unwrap();
    insert(&mut table, "a", 1, 1).unwrap();
    table.flush().unwrap();
    let (kept_early, _, offsets_early) = table.images();
    insert(&mut table, "a", 2, 2).unwrap();
    insert(&mut table, "b", 3, 3).unwrap();
    let (_, mut files, offsets) = table.images();
    assert_eq!(offsets, offsets_early);
    files.last_mut().unwrap().1.extend_from_slice(&[10, 0, 0, 0, 7, 7]);
    let again = Table::open(kept_early, files, offsets, config).unwrap();
    assert_eq!(value(get(&again, "a").unwrap()), Some(2));
    assert_eq!(value(get(&again, "b").unwrap()), Some(3));
    assert_eq!(again.pending(), 0);
}

#[test]
fn frontend_keeps_its_own_consumer_to_itself() {
    let mut table = Table::create(TableConfig::default()).unwrap();
    let taken = table.consumer(&b"__zendb_table_recovery".to_vec());
    assert_eq!(taken.err(), Some(StorageError::AlreadyExists));
}

fn in_memory(capacity: SkipListCapacity, max_buffered_records: usize) -> TableConfig {
    TableConfig {
        state: StateConfig::InMemory(SkipListConfig { capacity }),
        max_buffered_records,
        ..TableConfig::default()
    }
}

#[test]
fn frontend_lists_rows_of_a_list_before_those_in_memory() {
    let mut table = Table::create(in_memory(SkipListCapacity::Unbounded, 10)).unwrap();
    insert(&mut table, "m", 1, 100).unwrap();
    insert(&mut table, "x", 2, 110).unwrap();
    table.flush().unwrap();
    insert(&mut table, "x", 3, 120).unwrap();
    insert(&mut table, "a", 4, 130).unwrap();
    let all = ReadBackend::entries(&table);
    let values: Vec<i64> = all.iter().map(|(_, row)| value(row.clone()).unwrap()).collect();
    assert_eq!(collect_pks(all), vec!["m", "a", "x"]);
    assert_eq!(values, vec![1, 4, 3]);
    assert_eq!(ReadBackend::keys(&table), vec![pk("m"), pk("a"), pk("x")]);
    let values: Vec<i64> = ReadBackend::values(&table).into_iter().map(|row| value(row).unwrap()).collect();
    assert_eq!(values, vec![1, 4, 3]);
    assert_eq!(collect_pks(table.entries_rev()), vec!["x", "m", "a"]);
}

#[test]
fn frontend_stops_where_the_store_is_full() {
    let mut table = Table::create(in_memory(SkipListCapacity::Bounded { max_entries: 1 }, 2)).unwrap();
    insert(&mut table, "a", 1, 100).unwrap();
    insert(&mut table, "b", 2, 110).unwrap();
    assert_eq!((table.pending(), table.stats().cache.entries), (2, 2));
    assert_eq!(insert(&mut table, "c", 3, 120), Err(StorageError::StorageFull));
    // One row went to the store before the other found no room; both still wait.
    assert_eq!((table.pending(), table.stats().cache.entries), (1, 2));
    assert_eq!(table.flush(), Err(StorageError::StorageFull));
    assert_eq!(ReadBackend::size(&table), 2);
    assert_eq!(value(get(&table, "b").unwrap()), Some(2));
    assert!(get(&table, "c").is_none());
    // A row that waits already needs no more room.
    insert(&mut table, "b", 4, 130).unwrap();
    assert_eq!(value(get(&table, "b").unwrap()), Some(4));
}

#[test]
fn frontend_without_places_in_memory_takes_no_row() {
    let mut table = Table::create(in_memory(SkipListCapacity::Unbounded, 0)).unwrap();
    assert_eq!(insert(&mut table, "a", 1, 100), Err(StorageError::StorageFull));
    assert_eq!(ReadBackend::size(&table), 0);
    assert_eq!(table.stats().topic.records, 0);
}

#[test]
fn frontend_does_not_open_where_the_store_is_full() {
    let mut table = Table::create(in_memory(SkipListCapacity::Unbounded, 10)).unwrap();
    insert(&mut table, "a", 1, 100).unwrap();
    insert(&mut table, "b", 2, 110).unwrap();
    let (state, files, offsets) = table.images();
    let small = in_memory(SkipListCapacity::Bounded { max_entries: 1 }, 10);
    let r = Table::open(state.clone(), files.clone(), offsets.clone(), small);
    assert_eq!(r.err(), Some(StorageError::StorageFull));
    let enough = in_memory(SkipListCapacity::Bounded { max_entries: 2 }, 10);
    assert_eq!(ReadBackend::size(&Table::open(state, files, offsets, enough).unwrap()), 2);
}

#[test]
fn frontend_store_takes_all_rows_that_wait() {
    let list = in_memory(SkipListCapacity::Bounded { max_entries: 3 }, 3);
    let log = TableConfig { max_buffered_records: 3, ..unordered() };
    for config in [list, log] {
        let mut table = Table::create(config).unwrap();
        for (i, key) in ["c", "a", "b"].iter().enumerate() {
            insert(&mut table, key, i as i64, 100 + i as u64).unwrap();
        }
        assert_eq!(state_size(&table), 0);
        table.flush().unwrap();
        assert_eq!(state_size(&table), 3);
        assert_eq!((table.pending(), table.stats().cache.entries), (0, 0));
        assert_eq!(value(get(&table, "a").unwrap()), Some(1));
    }
}
