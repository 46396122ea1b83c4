use std::marker::PhantomData;
use zendb_storage::engine::log::HEADER_SIZE;
use zendb_storage::engine::order_log::{OrderLog, OrderLogConfig, OrderLogStats};
use zendb_storage::error::StorageError;
use zendb_storage::utils::ratio::Ratio;

type TestKey = Vec<u8>;

#[derive(Debug, Clone, PartialEq)]
struct TestVal {
    name: String,
    count: u32,
}

/// Values that can be written as bytes.
trait Coded {
    fn encode(&self) -> Vec<u8>;
    fn decode(b: &[u8]) -> Self;
}

impl Coded for TestVal {
    fn encode(&self) -> Vec<u8> {
        let cfg = bincode::config::standard().with_little_endian().with_fixed_int_encoding();
        bincode::encode_to_vec((self.name.clone(), self.count), cfg).unwrap()
    }

    fn decode(b: &[u8]) -> Self {
        let cfg = bincode::config::standard().with_little_endian().with_fixed_int_encoding();
        let ((name, count), _): ((String, u32), usize) = bincode::decode_from_slice(b, cfg).unwrap();
        TestVal { name, count }
    }
}

impl Coded for u32 {
    fn encode(&self) -> Vec<u8> {
        self.to_le_bytes().to_vec()
    }

    fn decode(b: &[u8]) -> Self {
        u32::from_le_bytes([b[0], b[1], b[2], b[3]])
    }
}

impl Coded for Vec<u32> {
    fn encode(&self) -> Vec<u8> {
        let cfg = bincode::config::standard().with_little_endian().with_fixed_int_encoding();
        bincode::encode_to_vec(self, cfg).unwrap()
    }

    fn decode(b: &[u8]) -> Self {
        let cfg = bincode::config::standard().with_little_endian().with_fixed_int_encoding();
        let (v, _): (Vec<u32>, usize) = bincode::decode_from_slice(b, cfg).unwrap();
        v
    }
}

impl Coded for () {
    fn encode(&self) -> Vec<u8> {
        Vec::new()
    }

    fn decode(b: &[u8]) -> Self {
        assert!(b.is_empty());
    }
}

/// A store of values of one type.
struct Typed<V> {
    inner: OrderLog,
    value: PhantomData<V>,
}

impl<V: Coded> Typed<V> {
    fn create(config: OrderLogConfig) -> Self {
        Typed { inner: OrderLog::create(config).unwrap(), value: PhantomData }
    }

    fn open(image: Vec<u8>, config: OrderLogConfig) -> Self {
        Typed { inner: OrderLog::open(image, config).unwrap(), value: PhantomData }
    }

    fn put(&mut self, key: TestKey, value: V) -> Result<(), StorageError> {
        self.inner.put(key, value.encode())
    }

    fn get(&self, key: &TestKey) -> Option<V> {
        self.inner.get(key).map(|b| V::decode(&b))
    }

    fn update(&mut self, key: &TestKey, f: impl FnOnce(Option<V>) -> Option<V>) -> Result<(), StorageError> {
        self.inner.update(key, |old| f(old.map(|b| V::decode(&b))).map(|v| v.encode()))
    }

    fn delete(&mut self, key: &TestKey) -> Result<bool, StorageError> {
        self.inner.delete(key)
    }

    fn clear(&mut self) -> Result<(), StorageError> {
        self.inner.clear()
    }

    fn compact(&mut self) -> Result<(), StorageError> {
        self.inner.compact()
    }

    fn keys(&self) -> Vec<TestKey> {
        self.inner.keys()
    }

    fn range(&self, start: &TestKey, end: &TestKey) -> Vec<(TestKey, V)> {
        typed(self.inner.range(start, end))
    }

    fn first(&self) -> Option<(TestKey, V)> {
        self.inner.first().map(|(k, v)| (k, V::decode(&v)))
    }

    fn last(&self) -> Option<(TestKey, V)> {
        self.inner.last().map(|(k, v)| (k, V::decode(&v)))
    }

    fn size(&self) -> usize {
        self.inner.size()
    }

    fn is_empty(&self) -> bool {
        self.inner.is_empty()
    }

    fn stats(&self) -> OrderLogStats {
        self.inner.stats()
    }

    fn image(&self) -> Vec<u8> {
        self.inner.image().clone()
    }

    fn dead_bytes(&self) -> u64 {
        self.inner.dead_bytes()
    }
}

fn typed<V: Coded>(items: Vec<(TestKey, Vec<u8>)>) -> Vec<(TestKey, V)> {
    items.into_iter().map(|(k, v)| (k, V::decode(&v))).collect()
}

fn k(s: &str) -> TestKey {
    s.as_bytes().to_vec()
}

fn v(name: &str, count: u32) -> TestVal {
    TestVal { name: name.into(), count }
}

fn quiet() -> OrderLogConfig {
    OrderLogConfig { initial_capacity: 8 * 1024, compaction_ratio: Ratio { num: 1, den: 1 } }
}

fn create() -> Typed<TestVal> {
    Typed::create(OrderLogConfig::default())
}

fn open(image: Vec<u8>) -> Typed<TestVal> {
    Typed::open(image, OrderLogConfig::default())
}

#[test]
fn order_log_put_then_get() {
    let mut ol = create();
    ol.put(k("alice"), v("alice", 1)).unwrap();
    assert_eq!(ol.get(&k("alice")), Some(v("alice", 1)));
}

#[test]
fn order_log_missing_returns_none() {
    let ol = create();
    assert!(ol.get(&k("ghost")).is_none());
}

#[test]
fn order_log_entries_are_ordered() {
    let mut ol = create();
    for s in ["delta", "alpha", "echo", "bravo", "charlie"] {
        ol.put(k(s), v(s, 0)).unwrap();
    }
    let got: Vec<TestKey> = ol.keys();
    assert_eq!(
        got,
        vec![k("alpha"), k("bravo"), k("charlie"), k("delta"), k("echo"),]
    );
}

#[test]
fn order_log_range_returns_subrange() {
    let mut ol = create();
    for s in ["a", "b", "c", "d", "e", "f"] {
        ol.put(k(s), v(s, 0)).unwrap();
    }
    let got: Vec<TestKey> = ol.range(&k("b"), &k("e")).into_iter().map(|(k, _)| k).collect();
    assert_eq!(got, vec![k("b"), k("c"), k("d")]);
}

#[test]
fn order_log_first_last_endpoints() {
    let mut ol = create();
    for s in ["m", "a", "z", "f"] {
        ol.put(k(s), v(s, 0)).unwrap();
    }
    assert_eq!(ol.first().map(|(k, _)| k), Some(k("a")));
    assert_eq!(ol.last().map(|(k, _)| k), Some(k("z")));
}

#[test]
fn order_log_delete_removes_and_persists() {
    let mut ol = create();
    ol.put(k("a"), v("a", 1)).unwrap();
    ol.put(k("b"), v("b", 2)).unwrap();
    assert!(ol.delete(&k("a")).unwrap());
    assert!(!ol.delete(&k("a")).unwrap());
    assert!(ol.get(&k("a")).is_none());
    let image = ol.image();
    drop(ol);

    let ol = open(image);
    assert!(ol.get(&k("a")).is_none());
    assert_eq!(ol.get(&k("b")), Some(v("b", 2)));
}

#[test]
fn order_log_overwrite_yields_latest_after_reopen() {
    let image = {
        let mut ol = create();
        ol.put(k("x"), v("v1", 1)).unwrap();
        ol.put(k("x"), v("v2", 2)).unwrap();
        ol.image()
    };
    let ol = open(image);
    assert_eq!(ol.get(&k("x")), Some(v("v2", 2)));
}

#[test]
fn order_log_update_combines_existing() {
    let mut ol: Typed<u32> = Typed::create(OrderLogConfig::default());
    ol.put(k("counter"), 1u32).unwrap();
    let inc = 5u32;
    ol.update(&k("counter"), move |cur| Some(cur.unwrap_or(0) + inc))
        .unwrap();
    let inc2 = 4u32;
    ol.update(&k("counter"), move |cur| Some(cur.unwrap_or(0) + inc2))
        .unwrap();
    assert_eq!(ol.get(&k("counter")), Some(10u32));
}

#[test]
fn order_log_update_inserts_when_absent() {
    let mut ol: Typed<u32> = Typed::create(OrderLogConfig::default());
    let val = 7u32;
    ol.update(&k("fresh"), move |cur| Some(cur.unwrap_or(0) + val))
        .unwrap();
    assert_eq!(ol.get(&k("fresh")), Some(7u32));
}

#[test]
fn order_log_update_returning_none_deletes() {
    let mut ol: Typed<u32> = Typed::create(OrderLogConfig::default());
    ol.put(k("x"), 42u32).unwrap();
    ol.update(&k("x"), |_| None).unwrap();
    assert!(ol.get(&k("x")).is_none());
    assert_eq!(ol.size(), 0);
}

#[test]
fn order_log_update_absent_returning_none_is_noop() {
    let mut ol: Typed<u32> = Typed::create(OrderLogConfig::default());
    ol.update(&k("ghost"), |_| None).unwrap();
    assert!(ol.get(&k("ghost")).is_none());
    assert_eq!(ol.size(), 0);
}

#[test]
fn stats_track_entries_data_size_and_dead_bytes() {
    let mut ol = Typed::create(quiet());
    assert_eq!(
        ol.stats(),
        OrderLogStats {
            entries: 0,
            data_size: HEADER_SIZE as u64,
            dead_bytes: 0,
        }
    );

    ol.put(k("a"), v("first", 1)).unwrap();
    assert_eq!(ol.stats().entries, 1);
    assert!(ol.stats().data_size > HEADER_SIZE as u64);
    assert_eq!(ol.stats().dead_bytes, 0);

    ol.put(k("a"), v("second", 2)).unwrap();
    assert_eq!(ol.stats().entries, 1);
    assert!(ol.stats().dead_bytes > 0);
}

#[test]
fn order_log_dead_bytes_are_exact_across_overwrite_delete_and_reopen() {
    let key = k("x");
    let v1 = v("short", 1);
    let v2 = v("a longer value", 2);
    let rec1 = 8 + v1.encode().len() as u64 + key.len() as u64;
    let rec2 = 8 + v2.encode().len() as u64 + key.len() as u64;
    let tombstone = 8 + key.len() as u64;

    let image = {
        let mut ol = Typed::create(quiet());
        ol.put(key.clone(), v1.clone()).unwrap();
        assert_eq!(ol.dead_bytes(), 0);
        ol.put(key.clone(), v2.clone()).unwrap();
        assert_eq!(ol.dead_bytes(), rec1);
        ol.delete(&key).unwrap();
        assert_eq!(ol.dead_bytes(), rec1 + rec2 + tombstone);
        ol.image()
    };

    let ol: Typed<TestVal> = Typed::open(image, quiet());
    assert_eq!(ol.dead_bytes(), rec1 + rec2 + tombstone);
    assert_eq!(ol.stats().dead_bytes, rec1 + rec2 + tombstone);
    assert!(ol.dead_bytes() < u32::MAX as u64);
}

#[test]
fn order_log_update_can_move_owned_captures() {
    let mut ol: Typed<Vec<u32>> = Typed::create(OrderLogConfig::default());
    ol.put(k("acc"), vec![1, 2, 3]).unwrap();
    let extras: Vec<u32> = vec![10, 20, 30];
    ol.update(&k("acc"), move |cur| {
        let mut v = cur.unwrap();
        v.extend(extras);
        Some(v)
    })
    .unwrap();
    assert_eq!(ol.get(&k("acc")), Some(vec![1, 2, 3, 10, 20, 30]));
}

#[test]
fn compact_keeps_live_drops_dead() {
    let mut ol = create();
    for i in 0..50 {
        ol.put(k(&format!("k{:02}", i)), v("init", i)).unwrap();
    }
    for i in 0..50 {
        ol.put(k(&format!("k{:02}", i)), v("update", i)).unwrap();
    }
    for i in 0..25 {
        ol.delete(&k(&format!("k{:02}", i))).unwrap();
    }
    ol.compact().unwrap();
    assert_eq!(ol.size(), 25);
    for i in 25..50 {
        assert_eq!(ol.get(&k(&format!("k{:02}", i))), Some(v("update", i)));
    }
}

#[test]
fn order_log_rebuild_after_reopen() {
    let image = {
        let mut ol = create();
        for s in ["b", "a", "c"] {
            ol.put(k(s), v(s, 1)).unwrap();
        }
        ol.delete(&k("b")).unwrap();
        ol.put(k("d"), v("d", 1)).unwrap();
        ol.image()
    };
    let ol = open(image);
    let got: Vec<TestKey> = ol.keys();
    assert_eq!(got, vec![k("a"), k("c"), k("d")]);
}

#[test]
fn clear_resets() {
    let mut ol = create();
    for s in ["a", "b", "c"] {
        ol.put(k(s), v(s, 0)).unwrap();
    }
    ol.clear().unwrap();
    assert_eq!(ol.size(), 0);
    assert!(ol.is_empty());
    assert!(ol.get(&k("a")).is_none());
}

#[test]
fn order_log_reads_dont_touch_disk_after_open() {
    // Sanity: after open, get/range/first/last should be served
    // from memory. We can't observe page faults from a test, but
    // we can at least verify identical results before and after a
    // reopen — that's the contract that matters.
    let image = {
        let mut ol = create();
        for i in 0..20u32 {
            ol.put(format!("k{:02}", i).into_bytes(), v("entry", i))
                .unwrap();
        }
        ol.image()
    };
    let ol = open(image);
    assert_eq!(ol.size(), 20);
    let first = ol.first().unwrap();
    let last = ol.last().unwrap();
    assert_eq!(first.0, k("k00"));
    assert_eq!(last.0, k("k19"));
    let middle: Vec<_> = ol.range(&k("k05"), &k("k08")).into_iter().map(|(k, _)| k).collect();
    assert_eq!(middle, vec![k("k05"), k("k06"), k("k07")]);
}

// -- own --

#[test]
fn order_log_compaction_writes_in_key_order() {
    let mut ol = create();
    ol.put(k("b"), v("b", 1)).unwrap();
    ol.put(k("a"), v("a", 2)).unwrap();
    ol.compact().unwrap();
    assert_eq!(ol.inner.data_size(), ol.stats().data_size);
    let image = ol.image();
    let value = v("a", 2).encode();
    assert_eq!(image[HEADER_SIZE..HEADER_SIZE + 4], (value.len() as u32).to_le_bytes());
    assert_eq!(image[HEADER_SIZE + 4..HEADER_SIZE + 4 + value.len()], value[..]);
}

#[test]
fn order_log_keeps_empty_values() {
    let mut ol: Typed<()> = Typed::create(OrderLogConfig::default());
    ol.put(k("alpha"), ()).unwrap();
    ol.put(k("beta"), ()).unwrap();
    let ol: Typed<()> = Typed::open(ol.image(), OrderLogConfig::default());
    assert_eq!(ol.size(), 2);
    assert_eq!(ol.get(&k("alpha")), Some(()));
}

#[test]
fn order_log_refuses_bytes_of_something_else() {
    let r = OrderLog::open(vec![1, 2, 3, 4, 5, 6, 7, 8], OrderLogConfig::default());
    assert_eq!(r.err(), Some(StorageError::InvalidData));
    let cfg = OrderLogConfig { initial_capacity: u64::MAX, compaction_ratio: Ratio { num: 1, den: 2 } };
    assert_eq!(OrderLog::create(cfg).err(), Some(StorageError::StorageFull));
}

#[test]
fn order_log_ends_where_its_file_is_blank() {
    let mut ol = OrderLog::create(OrderLogConfig::default()).unwrap();
    let mut blank = ol.image()[..HEADER_SIZE].to_vec();
    blank.extend_from_slice(&[0; 8]);
    let empty = OrderLog::open(blank.clone(), OrderLogConfig::default()).unwrap();
    assert_eq!(empty.size(), 0);
    assert!(!empty.contains(&Vec::new()));
    blank.truncate(HEADER_SIZE + 5);
    assert_eq!(OrderLog::open(blank, OrderLogConfig::default()).unwrap().size(), 0);
    ol.put(b"key".to_vec(), b"value".to_vec()).unwrap();
    ol.put(b"other".to_vec(), Vec::new()).unwrap();
    let used = ol.data_size() as usize;
    let mut image = ol.image().clone();
    for b in image[used..].iter_mut() {
        *b = 0;
    }
    let mut again = OrderLog::open(image, OrderLogConfig::default()).unwrap();
    assert_eq!(again.size(), 2);
    assert_eq!(again.get(&b"key".to_vec()), Some(b"value".to_vec()));
    assert_eq!(again.data_size(), used as u64);
    again.put(b"third".to_vec(), b"3".to_vec()).unwrap();
    let last = OrderLog::open(again.image().clone(), OrderLogConfig::default()).unwrap();
    assert_eq!(last.size(), 3);
}

#[test]
fn order_log_compaction_keeps_the_initial_capacity() {
    let cfg = OrderLogConfig { initial_capacity: 4096, compaction_ratio: Ratio { num: 1, den: 1 } };
    let mut ol = OrderLog::create(cfg).unwrap();
    for i in 0u32..1000 {
        ol.put(b"key".to_vec(), i.to_le_bytes().to_vec()).unwrap();
    }
    assert!(ol.image().len() > 4096);
    ol.compact().unwrap();
    assert_eq!(ol.image().len(), 4096);
}

#[test]
fn order_log_ends_at_a_record_that_is_cut_off() {
    let cfg = OrderLogConfig { initial_capacity: 4096, compaction_ratio: Ratio { num: 1, den: 1 } };
    let mut ol = OrderLog::create(cfg).unwrap();
    ol.put(b"key".to_vec(), b"value".to_vec()).unwrap();
    let used = ol.data_size() as usize;
    ol.put(b"other".to_vec(), b"second".to_vec()).unwrap();
    ol.delete(&b"key".to_vec()).unwrap();
    let image = ol.image().clone();
    // Within the value, and within the key size behind it.
    for cut in [used + 4, used + 7, used + 4 + 6, used + 4 + 6 + 3] {
        let mut again = OrderLog::open(image[..cut].to_vec(), OrderLogConfig::default()).unwrap();
        assert_eq!(again.size(), 1);
        assert_eq!(again.get(&b"key".to_vec()), Some(b"value".to_vec()));
        assert_eq!(again.data_size(), used as u64);
        again.put(b"third".to_vec(), b"3".to_vec()).unwrap();
        let last = OrderLog::open(again.image().clone(), OrderLogConfig::default()).unwrap();
        assert_eq!(last.size(), 2);
    }
    // A tombstone before its key size.
    let tombstone = used + 8 + 6 + 5;
    let again = OrderLog::open(image[..tombstone + 6].to_vec(), OrderLogConfig::default()).unwrap();
    assert_eq!(again.size(), 2);
    // A key that is cut off is no end.
    let r = OrderLog::open(image[..tombstone - 1].to_vec(), OrderLogConfig::default());
    assert_eq!(r.err(), Some(StorageError::InvalidData));
}
