use std::marker::PhantomData;
use zendb_storage::engine::log::HEADER_SIZE;
use zendb_storage::engine::orderlog::{OrderLog, OrderLogConfig, OrderLogStats};
use zendb_storage::error::StorageError;
use zendb_storage::utils::ratio::Ratio;

type TestKey = Vec<u8>;

#[derive(Debug, Clone, PartialEq)]
struct TestVal {
    name: String,
    count: u32,
}

/// Values that can be written as bytes.
trait Coded {
    fn encode(&self) -> Vec<u8>;
    fn decode(b: &[u8]) -> Self;
}

impl Coded for TestVal {
    fn encode(&self) -> Vec<u8> {
        let cfg = bincode::config::standard().with_little_endian().with_fixed_int_encoding();
        bincode::encode_to_vec((self.name.clone(), self.count), cfg).unwrap()
    }

    fn decode(b: &[u8]) -> Self {
        let cfg = bincode::config::standard().with_little_endian().with_fixed_int_encoding();
        let ((name, count), _): ((String, u32), usize) = bincode::decode_from_slice(b, cfg).unwrap();
        TestVal { name, count }
    }
}

impl Coded for u32 {
    fn encode(&self) -> Vec<u8> {
        self.to_le_bytes().to_vec()
    }

    fn decode(b: &[u8]) -> Self {
        u32::from_le_bytes([b[0], b[1], b[2], b[3]])
    }
}

impl Coded for Vec<u32> {
    fn encode(&self) -> Vec<u8> {
        let cfg = bincode::config::standard().with_little_endian().with_fixed_int_encoding();
        bincode::encode_to_vec(self, cfg).unwrap()
    }

    fn decode(b: &[u8]) -> Self {
        let cfg = bincode::config::standard().with_little_endian().with_fixed_int_encoding();
        let (v, _): (Vec<u32>, usize) = bincode::decode_from_slice(b, cfg).unwrap();
        v
    }
}

impl Coded for () {
    fn encode(&self) -> Vec<u8> {
        Vec::new()
    }

    fn decode(b: &[u8]) -> Self {
        assert!(b.is_empty());
    }
}

/// A store of values of one type.
struct Typed<V> {
    inner: OrderLog,
    value: PhantomData<V>,
}

impl<V: Coded> Typed<V> {
    fn create(config: OrderLogConfig) -> Self {
        Typed { inner: OrderLog::create(config).unwrap(), value: PhantomData }
    }

    fn open(image: Vec<u8>, config: OrderLogConfig) -> Self {
        Typed { inner: OrderLog::open(image, config).unwrap(), value: PhantomData }
    }

    fn put(&mut self, key: TestKey, value: V) -> Result<(), StorageError> {
        self.inner.put(key, value.encode())
    }

    fn get(&self, key: &TestKey) -> Option<V> {
        self.inner.get(key).map(|b| V::decode(b))
    }

    fn update(&mut self, key: &TestKey, f: impl FnOnce(Option<V>) -> Option<V>) -> Result<(), StorageError> {
        self.inner.update(key, |old| f(old.map(|b| V::decode(&b))).map(|v| v.encode()))
    }

    fn delete(&mut self, key: &TestKey) -> Result<bool, StorageError> {
        self.inner.delete(key)
    }

    fn clear(&mut self) -> Result<(), StorageError> {
        self.inner.clear()
    }

    fn compact(&mut self) -> Result<(), StorageError> {
        self.inner.compact()
    }

    fn keys(&self) -> Vec<TestKey> {
        self.inner.keys()
    }

    fn range(&self, start: &TestKey, end: &TestKey) -> Vec<(TestKey, V)> {
        typed(self.inner.range(start, end))
    }

    fn first(&self) -> Option<(TestKey, V)> {
        self.inner.first().map(|(k, v)| (k, V::decode(&v)))
    }

    fn last(&self) -> Option<(TestKey, V)> {
        self.inner.last().map(|(k, v)| (k, V::decode(&v)))
    }

    fn size(&self) -> usize {
        self.inner.size()
    }

    fn is_empty(&self) -> bool {
        self.inner.is_empty()
    }

    fn stats(&self) -> OrderLogStats {
        self.inner.stats()
    }

    fn image(&self) -> Vec<u8> {
        self.inner.image().clone()
    }

    fn put_if_absent(&mut self, key: TestKey, value: V) -> Result<bool, StorageError> {
        self.inner.put_if_absent(key, value.encode())
    }

    fn replace(&mut self, key: TestKey, value: V) -> Result<Option<V>, StorageError> {
        Ok(self.inner.replace(key, value.encode())?.map(|b| V::decode(&b)))
    }

    fn bulk_put(&mut self, items: Vec<(TestKey, V)>) -> Result<(), StorageError> {
        let items: Vec<(TestKey, Vec<u8>)> = items.into_iter().map(|(k, v)| (k, v.encode())).collect();
        self.inner.bulk_put(&items)
    }

    fn bulk_put_sorted(&mut self, items: Vec<(TestKey, V)>) -> Result<(), StorageError> {
        let items: Vec<(TestKey, Vec<u8>)> = items.into_iter().map(|(k, v)| (k, v.encode())).collect();
        self.inner.bulk_put_sorted(&items)
    }

    fn bulk_delete(&mut self, keys: &Vec<TestKey>) -> Result<usize, StorageError> {
        self.inner.bulk_delete(keys)
    }

    fn bulk_delete_sorted(&mut self, keys: &Vec<TestKey>) -> Result<usize, StorageError> {
        self.inner.bulk_delete_sorted(keys)
    }

    fn contains(&self, key: &TestKey) -> bool {
        self.inner.contains(key)
    }

    fn entries(&self) -> Vec<(TestKey, V)> {
        typed(self.inner.entries())
    }

    fn entries_rev(&self) -> Vec<(TestKey, V)> {
        typed(self.inner.entries_rev())
    }

    fn range_rev(&self, start: &TestKey, end: &TestKey) -> Vec<(TestKey, V)> {
        typed(self.inner.range_rev(start, end))
    }
}

fn typed<V: Coded>(items: Vec<(TestKey, Vec<u8>)>) -> Vec<(TestKey, V)> {
    items.into_iter().map(|(k, v)| (k, V::decode(&v))).collect()
}

fn k(s: &str) -> TestKey {
    s.as_bytes().to_vec()
}

fn v(name: &str, count: u32) -> TestVal {
    TestVal { name: name.into(), count }
}

fn quiet() -> OrderLogConfig {
    OrderLogConfig { initial_capacity: 8 * 1024, compaction_ratio: Ratio { num: 1, den: 1 } }
}

fn create() -> Typed<TestVal> {
    Typed::create(OrderLogConfig::default())
}

fn open(image: Vec<u8>) -> Typed<TestVal> {
    Typed::open(image, OrderLogConfig::default())
}

fn get<V: Coded>(ol: &Typed<V>, key: &TestKey) -> Option<V> {
    ol.get(key)
}

#[test]
fn orderlog_put_then_get() {
    let mut ol = create();
    ol.put(k("alice"), v("alice", 1)).unwrap();
    assert_eq!(get(&ol, &k("alice")), Some(v("alice", 1)));
}

#[test]
fn orderlog_missing_returns_none() {
    let ol = create();
    assert!(get(&ol, &k("ghost")).is_none());
}

#[test]
fn orderlog_entries_are_ordered() {
    let mut ol = create();
    for s in ["delta", "alpha", "echo", "bravo", "charlie"] {
        ol.put(k(s), v(s, 0)).unwrap();
    }
    assert_eq!(
        ol.keys(),
        vec![k("alpha"), k("bravo"), k("charlie"), k("delta"), k("echo")]
    );
}

#[test]
fn orderlog_range_returns_subrange() {
    let mut ol = create();
    for s in ["a", "b", "c", "d", "e", "f"] {
        ol.put(k(s), v(s, 0)).unwrap();
    }
    let got: Vec<_> = ol
        .range(&k("b"), &k("e")).into_iter().map(|(k, _)| k).collect();
    assert_eq!(got, vec![k("b"), k("c"), k("d")]);
}

#[test]
fn orderlog_first_last_endpoints() {
    let mut ol = create();
    for s in ["m", "a", "z", "f"] {
        ol.put(k(s), v(s, 0)).unwrap();
    }
    assert_eq!(ol.first().map(|(k, _)| k), Some(k("a")));
    assert_eq!(ol.last().map(|(k, _)| k), Some(k("z")));
}

#[test]
fn orderlog_delete_removes_and_persists() {
    let image = {
        let mut ol = create();
        ol.put(k("a"), v("a", 1)).unwrap();
        ol.put(k("b"), v("b", 2)).unwrap();
        assert!(ol.delete(&k("a")).unwrap());
        assert!(!ol.delete(&k("a")).unwrap());
        ol.image()
    };
    let ol = open(image);
    assert!(get(&ol, &k("a")).is_none());
    assert_eq!(get(&ol, &k("b")), Some(v("b", 2)));
}

#[test]
fn orderlog_overwrite_yields_latest_after_reopen() {
    let image = {
        let mut ol = create();
        ol.put(k("x"), v("v1", 1)).unwrap();
        ol.put(k("x"), v("v2", 2)).unwrap();
        ol.image()
    };
    assert_eq!(get(&open(image), &k("x")), Some(v("v2", 2)));
}

#[test]
fn update_paths_work() {
    let mut ol: Typed<u32> = Typed::create(OrderLogConfig::default());
    ol.update(&k("counter"), |cur| Some(cur.unwrap_or(0) + 1))
        .unwrap();
    ol.update(&k("counter"), |cur| Some(cur.unwrap_or(0) + 5))
        .unwrap();
    assert_eq!(get(&ol, &k("counter")), Some(6));
    ol.update(&k("counter"), |_| None).unwrap();
    assert!(get(&ol, &k("counter")).is_none());
    ol.update(&k("ghost"), |_| None).unwrap();
}

#[test]
fn orderlog_update_combines_existing() {
    let mut ol: Typed<u32> = Typed::create(OrderLogConfig::default());
    ol.put(k("counter"), 1).unwrap();
    let inc = 5;
    ol.update(&k("counter"), move |cur| Some(cur.unwrap_or(0) + inc))
        .unwrap();
    let inc2 = 4;
    ol.update(&k("counter"), move |cur| Some(cur.unwrap_or(0) + inc2))
        .unwrap();
    assert_eq!(get(&ol, &k("counter")), Some(10));
}

#[test]
fn orderlog_update_inserts_when_absent() {
    let mut ol: Typed<u32> = Typed::create(OrderLogConfig::default());
    ol.update(&k("fresh"), |cur| Some(cur.unwrap_or(0) + 7))
        .unwrap();
    assert_eq!(get(&ol, &k("fresh")), Some(7));
}

#[test]
fn orderlog_update_returning_none_deletes() {
    let mut ol: Typed<u32> = Typed::create(OrderLogConfig::default());
    ol.put(k("x"), 42).unwrap();
    ol.update(&k("x"), |_| None).unwrap();
    assert!(get(&ol, &k("x")).is_none());
    assert_eq!(ol.size(), 0);
}

#[test]
fn orderlog_update_absent_returning_none_is_noop() {
    let mut ol: Typed<u32> = Typed::create(OrderLogConfig::default());
    ol.update(&k("ghost"), |_| None).unwrap();
    assert!(get(&ol, &k("ghost")).is_none());
    assert_eq!(ol.size(), 0);
}

#[test]
fn orderlog_update_can_move_owned_captures() {
    let mut ol: Typed<Vec<u32>> = Typed::create(OrderLogConfig::default());
    ol.put(k("acc"), vec![1, 2, 3]).unwrap();
    let extras = vec![10, 20, 30];
    ol.update(&k("acc"), move |cur| {
        let mut v = cur.unwrap();
        v.extend(extras);
        Some(v)
    })
    .unwrap();
    assert_eq!(get(&ol, &k("acc")), Some(vec![1, 2, 3, 10, 20, 30]));
}

#[test]
fn orderlog_stats_track_data_size_and_dead_bytes() {
    let mut ol = Typed::create(quiet());
    assert_eq!(
        ol.stats(),
        OrderLogStats {
            data_size: HEADER_SIZE as u64,
            dead_bytes: 0,
        }
    );
    assert_eq!(ol.size(), 0);
    ol.put(k("a"), v("first", 1)).unwrap();
    assert_eq!(ol.size(), 1);
    assert_eq!(ol.stats().dead_bytes, 0);
    ol.put(k("a"), v("second", 2)).unwrap();
    assert_eq!(ol.size(), 1);
    assert!(ol.stats().dead_bytes > 0);
}

#[test]
fn orderlog_dead_bytes_are_exact_across_overwrite_delete_and_reopen() {
    let key = k("x");
    let v1 = v("short", 1);
    let v2 = v("a longer value", 2);
    let rec1 = 8 + v1.encode().len() as u64 + key.len() as u64;
    let rec2 = 8 + v2.encode().len() as u64 + key.len() as u64;
    let tombstone = 8 + key.len() as u64;
    let image = {
        let mut ol = Typed::create(quiet());
        ol.put(key.clone(), v1).unwrap();
        ol.put(key.clone(), v2).unwrap();
        assert_eq!(ol.stats().dead_bytes, rec1);
        ol.delete(&key).unwrap();
        assert_eq!(ol.stats().dead_bytes, rec1 + rec2 + tombstone);
        ol.image()
    };
    let ol: Typed<TestVal> = Typed::open(image, quiet());
    assert_eq!(ol.stats().dead_bytes, rec1 + rec2 + tombstone);
}

#[test]
fn compact_keeps_live_drops_dead_and_reopens() {
    let image = {
        let mut ol = create();
        for i in 0..50 {
            ol.put(k(&format!("k{:02}", i)), v("init", i)).unwrap();
        }
        for i in 0..50 {
            ol.put(k(&format!("k{:02}", i)), v("update", i)).unwrap();
        }
        for i in 0..25 {
            ol.delete(&k(&format!("k{:02}", i))).unwrap();
        }
        let pre_size = ol.image().len();
        ol.compact().unwrap();
        assert!(ol.image().len() <= pre_size);
        assert_eq!(ol.stats().dead_bytes, 0);
        ol.image()
    };
    let ol = open(image);
    assert_eq!(ol.size(), 25);
    for i in 25..50 {
        assert_eq!(get(&ol, &k(&format!("k{:02}", i))), Some(v("update", i)));
    }
}

#[test]
fn clear_resets_and_survives_reopen() {
    let image = {
        let mut ol = create();
        for s in ["a", "b", "c"] {
            ol.put(k(s), v(s, 0)).unwrap();
        }
        ol.clear().unwrap();
        ol.image()
    };
    let ol = open(image);
    assert_eq!(ol.size(), 0);
    assert!(ol.is_empty());
}

#[test]
fn orderlog_rebuild_after_reopen() {
    let image = {
        let mut ol = create();
        for s in ["b", "a", "c"] {
            ol.put(k(s), v(s, 1)).unwrap();
        }
        ol.delete(&k("b")).unwrap();
        ol.put(k("d"), v("d", 1)).unwrap();
        ol.image()
    };
    let ol = open(image);
    assert_eq!(
        ol.keys(),
        vec![k("a"), k("c"), k("d")]
    );
}

#[test]
fn orderlog_reads_dont_touch_disk_after_open() {
    let image = {
        let mut ol = create();
        for i in 0..20u32 {
            ol.put(format!("k{:02}", i).into_bytes(), v("entry", i))
                .unwrap();
        }
        ol.image()
    };
    let ol = open(image);
    assert_eq!(ol.size(), 20);
    assert_eq!(ol.first().unwrap().0, k("k00"));
    assert_eq!(ol.last().unwrap().0, k("k19"));
    let middle: Vec<_> = ol
        .range(&k("k05"), &k("k08")).into_iter().map(|(k, _)| k).collect();
    assert_eq!(middle, vec![k("k05"), k("k06"), k("k07")]);
}

#[test]
fn put_if_absent_and_replace_paths() {
    let mut ol = create();
    assert!(ol.put_if_absent(k("a"), v("first", 1)).unwrap());
    assert!(!ol.put_if_absent(k("a"), v("second", 2)).unwrap());
    assert_eq!(get(&ol, &k("a")), Some(v("first", 1)));
    assert_eq!(
        ol.replace(k("a"), v("third", 3))
            .unwrap(),
        Some(v("first", 1))
    );
    assert_eq!(ol.replace(k("b"), v("new", 4)).unwrap(), None);
    assert_eq!(get(&ol, &k("a")), Some(v("third", 3)));
    assert_eq!(get(&ol, &k("b")), Some(v("new", 4)));
}

#[test]
fn bulk_put_and_delete() {
    let mut ol = create();
    let items: Vec<_> = (0..100u32)
        .map(|i| (format!("k{:03}", i).into_bytes(), v("p", i)))
        .collect();
    ol.bulk_put(items).unwrap();
    assert_eq!(ol.size(), 100);
    let keys: Vec<_> = (0..50u32)
        .map(|i| format!("k{:03}", i).into_bytes())
        .collect();
    let removed = ol.bulk_delete(&keys).unwrap();
    assert_eq!(removed, 50);
    assert_eq!(ol.size(), 50);
}

#[test]
fn bulk_unsorted_keeps_ordered_iteration() {
    let mut ol = create();
    let items = vec![
        (k("d"), v("d", 4)),
        (k("a"), v("a", 1)),
        (k("c"), v("c", 3)),
        (k("b"), v("b", 2)),
    ];
    ol.bulk_put(items).unwrap();
    assert_eq!(
        ol.keys(),
        vec![k("a"), k("b"), k("c"), k("d")]
    );

    let keys = vec![k("c"), k("missing"), k("a")];
    assert_eq!(ol.bulk_delete(&keys).unwrap(), 2);
    assert_eq!(
        ol.keys(),
        vec![k("b"), k("d")]
    );
}

#[test]
fn bulk_put_sorted_cases() {
    let mut ol = create();
    let first: Vec<_> = (0..10u32)
        .map(|i| (format!("k{:02}", i * 2).into_bytes(), v("even", i)))
        .collect();
    ol.bulk_put_sorted(first).unwrap();
    let interleaved: Vec<_> = (0..10u32)
        .map(|i| (format!("k{:02}", i * 2 + 1).into_bytes(), v("odd", i)))
        .collect();
    ol.bulk_put_sorted(interleaved).unwrap();
    let overwrite = vec![(k("k04"), v("new", 44)), (k("k25"), v("tail", 25))];
    ol.bulk_put_sorted(overwrite).unwrap();
    assert_eq!(ol.size(), 21);
    assert_eq!(get(&ol, &k("k04")), Some(v("new", 44)));
    assert_eq!(ol.last().map(|(k, _)| k), Some(k("k25")));
    let keys: Vec<_> = ol.keys();
    assert!(keys.windows(2).all(|w| w[0] < w[1]));
}

/// The last of equal keys in a batch wins.
#[test]
fn bulk_put_sorted_dedupes_within_batch() {
    let mut ol = create();
    ol.bulk_put_sorted(vec![
        (k("a"), v("first", 1)),
        (k("a"), v("second", 2)),
        (k("a"), v("third", 3)),
        (k("b"), v("b", 4)),
        (k("b"), v("b_again", 5)),
    ])
    .unwrap();
    assert_eq!(ol.size(), 2);
    assert_eq!(get(&ol, &k("a")), Some(v("third", 3)));
    assert_eq!(get(&ol, &k("b")), Some(v("b_again", 5)));
    // Iteration order must still be by key, with one entry per key.
    let keys: Vec<TestKey> = ol.keys();
    assert_eq!(keys, vec![k("a"), k("b")]);
}

#[test]
fn tombstone_copy_within_round_trips_through_reopen() {
    let image = {
        let mut ol = create();
        ol.put(k("alpha"), v("a", 1)).unwrap();
        ol.put(k("beta"), v("b", 2)).unwrap();
        ol.put(k("gamma"), v("c", 3)).unwrap();
        assert!(ol.delete(&k("beta")).unwrap());
        ol.image()
    };
    let ol = open(image);
    assert_eq!(ol.size(), 2);
    assert_eq!(get(&ol, &k("alpha")), Some(v("a", 1)));
    assert!(get(&ol, &k("beta")).is_none());
    assert_eq!(get(&ol, &k("gamma")), Some(v("c", 3)));
}

#[test]
fn orderlog_bulk_delete_sorted_removes_hits_skips_misses() {
    let mut ol = create();
    for i in 0..10u32 {
        ol.put(format!("k{:02}", i).into_bytes(), v("p", i))
            .unwrap();
    }
    let keys = vec![k("ghost"), k("k00"), k("k03"), k("k09"), k("zzz")];
    let removed = ol.bulk_delete_sorted(&keys).unwrap();
    assert_eq!(removed, 3);
    assert_eq!(ol.size(), 7);
    assert!(!ol.contains(&k("k00")));
    assert!(!ol.contains(&k("k03")));
    assert!(!ol.contains(&k("k09")));
}

#[test]
fn reverse_iteration_and_ranges() {
    let mut ol = create();
    for s in ["a", "b", "c", "d", "e"] {
        ol.put(k(s), v(s, 0)).unwrap();
    }
    let rev: Vec<_> = ol.entries_rev().into_iter().map(|(k, _)| k).collect();
    assert_eq!(rev, vec![k("e"), k("d"), k("c"), k("b"), k("a")]);
    let forward: Vec<(TestKey, TestVal)> = ol
        .range(&k("b"), &k("e"));
    let rev_range: Vec<(TestKey, TestVal)> = ol
        .range_rev(&k("b"), &k("e"));
    assert_eq!(rev_range, forward.into_iter().rev().collect::<Vec<_>>());
    assert!(ol.range_rev(&k("c"), &k("c")).is_empty());
    ol.delete(&k("c")).unwrap();
    let rev_after: Vec<_> = ol.entries_rev().into_iter().map(|(k, _)| k).collect();
    assert_eq!(rev_after, vec![k("e"), k("d"), k("b"), k("a")]);
}

#[test]
fn prev_link_correct_after_bulk_put_sorted_overwrite() {
    let mut ol = create();
    ol.bulk_put_sorted(vec![
        (k("a"), v("a", 1)),
        (k("b"), v("b", 1)),
        (k("c"), v("c", 1)),
    ])
    .unwrap();
    ol.bulk_put_sorted(vec![(k("b"), v("b2", 2))]).unwrap();
    assert_eq!(
        ol.entries_rev().into_iter().map(|(k, _)| k).collect::<Vec<_>>(),
        vec![k("c"), k("b"), k("a")]
    );
}

#[test]
fn range_streams_for_large_skip() {
    let mut ol = create();
    for i in 0..5000u32 {
        ol.put(format!("k{:05}", i).into_bytes(), v("p", i))
            .unwrap();
    }
    let got: Vec<_> = ol
        .range(&k("k01000"), &k("k05000")).into_iter().take(3).map(|(k, _)| k).collect();
    assert_eq!(got, vec![k("k01000"), k("k01001"), k("k01002")]);
}

#[test]
fn retrieval_methods_return_borrowed() {
    let mut ol = create();
    for s in ["a", "b", "c"] {
        ol.put(k(s), v(s, 0)).unwrap();
    }

    let value: Option<&Vec<u8>> = ol.inner.get(&k("a"));
    assert_eq!(value, Some(&v("a", 0).encode()));
    assert_eq!(ol.keys(), vec![k("a"), k("b"), k("c")]);
    assert_eq!(ol.inner.values(), vec![v("a", 0).encode(), v("b", 0).encode(), v("c", 0).encode()]);
    let all = vec![(k("a"), v("a", 0)), (k("b"), v("b", 0)), (k("c"), v("c", 0))];
    assert_eq!(ol.entries(), all);
    assert_eq!(ol.range(&k("a"), &k("c")), all[..2].to_vec());
    assert_eq!(ol.first(), Some(all[0].clone()));
    assert_eq!(ol.last(), Some(all[2].clone()));
}

#[test]
fn into_owned_yields_correct_values() {
    let mut ol = create();
    ol.put(k("a"), v("alpha", 1)).unwrap();
    ol.put(k("b"), v("beta", 2)).unwrap();

    let owned: TestVal = ol.get(&k("a")).unwrap();
    assert_eq!(owned, v("alpha", 1));

    let owned_entries: Vec<(TestKey, TestVal)> = ol.entries();
    assert_eq!(
        owned_entries,
        vec![(k("a"), v("alpha", 1)), (k("b"), v("beta", 2))]
    );
}

/// An empty value is told apart from the end of the log.
#[test]
fn orderlog_zero_byte_value_round_trips() {
    let image = {
        let mut ol: Typed<()> = Typed::create(OrderLogConfig::default());
        ol.put(k("alpha"), ()).unwrap();
        ol.put(k("beta"), ()).unwrap();
        ol.put(k("gamma"), ()).unwrap();
        ol.delete(&k("beta")).unwrap();
        ol.image()
    };
    let ol: Typed<()> = Typed::open(image, OrderLogConfig::default());
    assert_eq!(ol.size(), 2);
    assert_eq!(
        ol.get(&k("alpha")),
        Some(())
    );
    assert!(ol.get(&k("beta")).is_none());
    assert_eq!(
        ol.get(&k("gamma")),
        Some(())
    );
}

// -- own --

#[test]
fn orderlog_walks_all_records() {
    let mut ol = OrderLog::create(quiet()).unwrap();
    ol.put(k("b"), b"1".to_vec()).unwrap();
    ol.put(k("a"), b"2".to_vec()).unwrap();
    ol.put(k("b"), b"3".to_vec()).unwrap();
    ol.delete(&k("a")).unwrap();
    let mut walk = ol.consume_val();
    assert_eq!(walk.next(), Some((k("b"), Some(b"1".to_vec()))));
    assert_eq!(walk.next(), Some((k("a"), Some(b"2".to_vec()))));
    assert_eq!(walk.next(), Some((k("b"), Some(b"3".to_vec()))));
    assert_eq!(walk.next(), Some((k("a"), None)));
    assert_eq!(walk.next(), None);
}

#[test]
fn orderlog_refuses_bytes_of_something_else() {
    let r = OrderLog::open(vec![1, 2, 3, 4, 5, 6, 7, 8], OrderLogConfig::default());
    assert_eq!(r.err(), Some(StorageError::InvalidData));
    let cfg = OrderLogConfig { initial_capacity: u64::MAX, compaction_ratio: Ratio { num: 1, den: 2 } };
    assert_eq!(OrderLog::create(cfg).err(), Some(StorageError::StorageFull));
}

#[test]
fn orderlog_compacts_by_itself_when_half_is_dead() {
    let mut ol = OrderLog::create(OrderLogConfig { initial_capacity: 0, compaction_ratio: Ratio { num: 1, den: 2 } }).unwrap();
    ol.put(k("a"), vec![7; 100]).unwrap();
    ol.put(k("a"), vec![8; 100]).unwrap();
    assert_eq!(ol.stats().dead_bytes, 109);
    assert_eq!(ol.stats().data_size, 4 + 218);
    ol.put(k("a"), vec![9; 100]).unwrap();
    assert_eq!(ol.stats().dead_bytes, 0);
    assert_eq!(ol.stats().data_size, 4 + 109);
    assert_eq!(ol.get(&k("a")), Some(&vec![9; 100]));
}
