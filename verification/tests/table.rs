use zendb_storage::backend::state::{StateConfig, StateStats};
use zendb_storage::backend::traits::{OrderedReadBackend, ReadBackend};
use zendb_storage::engine::skiplist::{SkipListCapacity, SkipListConfig};
use zendb_storage::error::StorageError;
use zendb_storage::table::change::{Change, Event};
use zendb_storage::table::merge::{merge, not_shadowed, IterationOrder, MergedEntries};
use zendb_storage::table::receipt::{ReceiptWindow, SeqRange};
use zendb_storage::table::table::{InsertOutcome, Table, TableConfig};

fn event(author: &str, sequence: u64, key: &str) -> Event {
    Event {
        author: author.as_bytes().to_vec(),
        sequence,
        primary_key: key.as_bytes().to_vec(),
        operations: vec![1, 2, 3],
    }
}

fn set(v: &str) -> impl FnOnce(&Event, Option<Vec<u8>>) -> Result<Option<Vec<u8>>, StorageError> {
    let v = v.as_bytes().to_vec();
    move |_, _| Ok(Some(v))
}

fn row(table: &Table, key: &str) -> Option<Vec<u8>> {
    table.get(&key.as_bytes().to_vec())
}

fn reopen(table: &Table, config: TableConfig) -> Table {
    let (state, causal, files, offsets) = table.images();
    Table::open(state, causal, files, offsets, config).unwrap()
}

// -- what has been received --

#[test]
fn receipt_window_keeps_gaps_until_they_are_filled() {
    let mut w = ReceiptWindow::default();
    w.observe(1).unwrap();
    w.observe(5).unwrap();
    assert_eq!((w.max_seen, w.missing.clone()), (5, vec![SeqRange { start: 2, end: 4 }]));
    w.observe(3).unwrap();
    assert_eq!(w.missing, vec![SeqRange { start: 2, end: 2 }, SeqRange { start: 4, end: 4 }]);
    assert!(w.contains(1) && w.contains(3) && w.contains(5));
    assert!(!w.contains(2) && !w.contains(4) && !w.contains(6) && !w.contains(0));
    w.observe(2).unwrap();
    w.observe(4).unwrap();
    w.observe(4).unwrap();
    assert_eq!((w.max_seen, w.missing.len()), (5, 0));
    assert!(w.observe(0).is_err());
}

#[test]
fn receipt_window_order_of_arrival_does_not_matter() {
    let mut a = ReceiptWindow::default();
    let mut b = ReceiptWindow::default();
    for s in [9, 2, 5, 1, 7] {
        a.observe(s).unwrap();
    }
    for s in [1, 7, 9, 5, 2] {
        b.observe(s).unwrap();
    }
    assert_eq!(a.max_seen, b.max_seen);
    assert_eq!(a.missing, b.missing);
    assert_eq!(a.encode(), b.encode());
}

#[test]
fn receipt_window_round_trip() {
    let mut w = ReceiptWindow::default();
    w.observe(4).unwrap();
    let bytes = w.encode();
    let mut expected = 4u64.to_le_bytes().to_vec();
    expected.extend_from_slice(&1u64.to_le_bytes());
    expected.extend_from_slice(&1u64.to_le_bytes());
    expected.extend_from_slice(&3u64.to_le_bytes());
    assert_eq!(bytes, expected);
    let back = ReceiptWindow::decode(&bytes).unwrap();
    assert_eq!((back.max_seen, back.missing), (w.max_seen, w.missing));
    assert!(ReceiptWindow::decode(&bytes[..20]).is_none());
}

// -- changes --

#[test]
fn change_round_trip() {
    let c = Change { event: event("me", 7, "key"), previous: None, current: Some(vec![9, 9]) };
    let back = Change::decode(&c.encode()).unwrap();
    assert_eq!(back.event.author, b"me");
    assert_eq!(back.event.sequence, 7);
    assert_eq!(back.event.primary_key, b"key");
    assert_eq!(back.event.operations, vec![1, 2, 3]);
    assert_eq!((back.previous, back.current), (None, Some(vec![9, 9])));
    assert!(Change::decode(&[1, 2, 3]).is_none());
}

// -- merging --

fn r(k: u8, v: u8) -> (Vec<u8>, Vec<u8>) {
    (vec![k], vec![v])
}

#[test]
fn merge_prefers_the_cache() {
    let state = vec![r(1, 1), r(3, 3), r(5, 5)];
    let cache = vec![r(2, 20), r(3, 30)];
    let up = merge(state.clone(), cache.clone(), IterationOrder::Ascending);
    assert_eq!(up, vec![r(1, 1), r(2, 20), r(3, 30), r(5, 5)]);
    let mut s = state.clone();
    let mut c = cache.clone();
    s.reverse();
    c.reverse();
    let mut down = MergedEntries::new(s, c, IterationOrder::Descending);
    let mut seen = Vec::new();
    while let Some(e) = down.next() {
        seen.push(e);
    }
    assert_eq!(seen, vec![r(5, 5), r(3, 30), r(2, 20), r(1, 1)]);
    assert_eq!(not_shadowed(state, &cache), vec![r(1, 1), r(5, 5)]);
}

// -- tables --

#[test]
fn table_numbers_its_own_events() {
    let mut table = Table::create(TableConfig::default()).unwrap();
    let out = table.insert(event("me", 0, "a"), set("x")).unwrap();
    assert!(matches!(&out, InsertOutcome::Applied(c) if c.event.sequence == 1 && c.previous.is_none()));
    let out = table.insert(event("me", 0, "a"), |e, p| {
        assert_eq!(e.sequence, 2);
        assert_eq!(p, Some(b"x".to_vec()));
        Ok(None)
    });
    assert!(matches!(out, Ok(InsertOutcome::Ignored)));
    assert!(matches!(table.insert(event("me", 0, "a"), |_, _| Err(StorageError::NotFound)), Err(StorageError::NotFound)));
    let out = table.insert(event("me", 0, "a"), set("y")).unwrap();
    assert!(matches!(&out, InsertOutcome::Applied(c) if c.event.sequence == 2 && c.previous == Some(b"x".to_vec())));
    assert_eq!(row(&table, "a"), Some(b"y".to_vec()));
    assert!(table.contains_event(&b"me".to_vec(), 2));
    assert!(!table.contains_event(&b"me".to_vec(), 3));
}

#[test]
fn table_takes_an_event_of_another_once() {
    let mut table = Table::create(TableConfig::default()).unwrap();
    table.observe(event("peer", 3, "a"), set("x")).unwrap();
    let out = table.observe(event("peer", 3, "a"), |_, _| panic!("an event that is known is not evaluated"));
    assert!(matches!(out, Ok(InsertOutcome::Ignored)));
    assert_eq!(table.observe(event("peer", 0, "a"), set("y")).err(), Some(StorageError::InvalidData));
    let summaries = table.receipt_summaries();
    assert_eq!(summaries.len(), 1);
    assert_eq!(summaries[0].0, b"peer".to_vec());
    assert_eq!(summaries[0].1.missing, vec![SeqRange { start: 1, end: 2 }]);
}

#[test]
fn table_replays_what_its_rows_have_not() {
    let config = TableConfig::default();
    let mut table = Table::create(config).unwrap();
    let (old_rows, _, _, _) = table.images();
    table.insert(event("me", 0, "a"), set("1")).unwrap();
    table.insert(event("me", 0, "b"), set("2")).unwrap();
    table.insert(event("me", 0, "a"), set("3")).unwrap();
    let (_, causal, files, offsets) = table.images();
    let again = Table::open(old_rows, causal, files, offsets, config).unwrap();
    assert_eq!(row(&again, "a"), Some(b"3".to_vec()));
    assert_eq!(row(&again, "b"), Some(b"2".to_vec()));
    assert!(again.contains_event(&b"me".to_vec(), 3));
}

#[test]
fn table_persists_and_compacts() {
    let config = TableConfig::default();
    let mut table = Table::create(config).unwrap();
    table.insert(event("me", 0, "a"), set("1")).unwrap();
    table.persist().unwrap();
    table.compact().unwrap();
    let again = reopen(&table, config);
    assert_eq!(again.entries(), vec![(b"a".to_vec(), b"1".to_vec())]);
    assert_eq!(again.first(), Some((b"a".to_vec(), b"1".to_vec())));
    assert_eq!(again.stats().topic.records, 1);
    assert!(matches!(again.stats().state, StateStats::Ordered(_)));
}

#[test]
fn table_readers_and_consumers_see_the_changes() {
    let mut table = Table::create(TableConfig::default()).unwrap();
    let mut consumer = table.consumer(&b"watcher".to_vec()).unwrap();
    table.insert(event("me", 0, "a"), set("1")).unwrap();
    let mut reader = table.reader();
    let (offset, bytes) = table.read(&mut reader).unwrap();
    assert_eq!(offset, 0);
    assert_eq!(Change::decode(&bytes).unwrap().current, Some(b"1".to_vec()));
    assert_eq!(table.next(&mut consumer), Some(bytes));
    table.commit(&mut consumer).unwrap();
    assert!(table.next(&mut consumer).is_none());
}

#[test]
fn table_in_memory_rows_come_back_from_the_topic() {
    let config = TableConfig { state: StateConfig::InMemory(SkipListConfig::default()), ..TableConfig::default() };
    let mut table = Table::create(config).unwrap();
    table.insert(event("me", 0, "a"), set("1")).unwrap();
    table.persist().unwrap();
    let again = reopen(&table, config);
    assert_eq!(row(&again, "a"), Some(b"1".to_vec()));
}

#[test]
fn table_without_room_says_so() {
    let small = SkipListConfig { capacity: SkipListCapacity::Bounded { max_entries: 1 } };
    let config = TableConfig { state: StateConfig::InMemory(small), ..TableConfig::default() };
    let mut table = Table::create(config).unwrap();
    table.insert(event("me", 0, "a"), set("1")).unwrap();
    assert_eq!(table.insert(event("me", 0, "b"), set("2")).err(), Some(StorageError::StorageFull));
    assert_eq!(row(&table, "a"), Some(b"1".to_vec()));
    assert_eq!(row(&table, "b"), None);
    assert!(!table.contains_event(&b"me".to_vec(), 2));
}

#[test]
fn table_runs_out_of_numbers() {
    let mut table = Table::create(TableConfig::default()).unwrap();
    table.observe(event("me", u64::MAX, "a"), set("1")).unwrap();
    assert_eq!(table.insert(event("me", 0, "a"), set("2")).err(), Some(StorageError::Exhausted));
}

#[test]
fn table_refuses_receipts_that_are_none() {
    let config = TableConfig::default();
    let table = Table::create(config).unwrap();
    let (state, _, files, offsets) = table.images();
    let mut other = Table::create(config).unwrap();
    other.insert(event("me", 0, "a"), set("1")).unwrap();
    let (rows_in_place_of_receipts, _, _, _) = other.images();
    let r = Table::open(state, rows_in_place_of_receipts, files, offsets, config);
    assert!(r.is_err());
}

#[test]
fn table_does_not_see_a_change_that_was_cut_off() {
    let config = TableConfig::default();
    let mut table = Table::create(config).unwrap();
    table.insert(event("me", 0, "a"), set("1")).unwrap();
    let (state, causal, mut files, offsets) = table.images();
    files.last_mut().unwrap().1.extend_from_slice(&[200, 0, 0, 0, 1]);
    let again = Table::open(state, causal, files, offsets, config).unwrap();
    assert_eq!(row(&again, "a"), Some(b"1".to_vec()));
    assert_eq!(again.size(), 1);
    assert!(again.contains_event(&b"me".to_vec(), 1));
}

#[test]
fn table_keeps_its_own_consumer_to_itself() {
    let mut table = Table::create(TableConfig::default()).unwrap();
    let taken = table.consumer(&b"__zendb_table_recovery".to_vec());
    assert_eq!(taken.err(), Some(StorageError::AlreadyExists));
}

#[test]
fn table_does_not_open_where_the_store_is_full() {
    let rows = |capacity| TableConfig {
        state: StateConfig::InMemory(SkipListConfig { capacity }),
        ..TableConfig::default()
    };
    let mut table = Table::create(rows(SkipListCapacity::Unbounded)).unwrap();
    table.insert(event("me", 0, "a"), set("1")).unwrap();
    table.insert(event("me", 0, "b"), set("2")).unwrap();
    let (state, causal, files, offsets) = table.images();
    let one = SkipListCapacity::Bounded { max_entries: 1 };
    let r = Table::open(state.clone(), causal.clone(), files.clone(), offsets.clone(), rows(one));
    assert_eq!(r.err(), Some(StorageError::StorageFull));
    let two = SkipListCapacity::Bounded { max_entries: 2 };
    let table = Table::open(state, causal, files, offsets, rows(two)).unwrap();
    assert_eq!(row(&table, "b"), Some(b"2".to_vec()));
}

#[test]
fn table_consumers_go_on_where_they_were_when_it_is_opened_again() {
    let config = TableConfig::default();
    let mut table = Table::create(config).unwrap();
    let name = b"reports".to_vec();
    let mut consumer = table.consumer(&name).unwrap();
    table.insert(event("me", 0, "a"), set("1")).unwrap();
    table.insert(event("me", 0, "b"), set("2")).unwrap();
    assert!(table.next(&mut consumer).is_some());
    table.commit(&mut consumer).unwrap();
    let mut table = reopen(&table, config);
    let mut consumer = table.consumer(&name).unwrap();
    let change = Change::decode(&table.next(&mut consumer).unwrap()).unwrap();
    assert_eq!(change.event.primary_key, b"b".to_vec());
    assert!(table.next(&mut consumer).is_none());
}
