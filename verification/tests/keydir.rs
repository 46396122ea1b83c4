use zendb_storage::engine::keydir::{KeyDir, KeyDirConfig, KeyDirStats};
use zendb_storage::engine::log::HEADER_SIZE;
use zendb_storage::error::StorageError;
use zendb_storage::utils::ratio::Ratio;

type TestKey = Vec<u8>;

#[derive(Clone, Debug, PartialEq)]
struct TestVal {
    name: String,
    count: u32,
    tags: Vec<u32>,
}

fn encode(v: &TestVal) -> Vec<u8> {
    let cfg = bincode::config::standard().with_little_endian().with_fixed_int_encoding();
    bincode::encode_to_vec((v.name.clone(), v.count, v.tags.clone()), cfg).unwrap()
}

fn decode(b: Vec<u8>) -> TestVal {
    let cfg = bincode::config::standard().with_little_endian().with_fixed_int_encoding();
    let ((name, count, tags), used): ((String, u32, Vec<u32>), usize) = bincode::decode_from_slice(&b, cfg).unwrap();
    assert_eq!(used, b.len());
    TestVal { name, count, tags }
}

/// A store of `TestVal`s.
struct Dir {
    inner: KeyDir,
}

impl Dir {
    fn put(&mut self, key: TestKey, value: TestVal) -> Result<(), StorageError> {
        self.inner.put(&key, &encode(&value))
    }

    fn put_if_absent(&mut self, key: TestKey, value: TestVal) -> Result<bool, StorageError> {
        self.inner.put_if_absent(&key, &encode(&value))
    }

    fn replace(&mut self, key: TestKey, value: TestVal) -> Result<Option<TestVal>, StorageError> {
        Ok(self.inner.replace(&key, &encode(&value))?.map(decode))
    }

    fn bulk_put(&mut self, items: Vec<(TestKey, TestVal)>) -> Result<(), StorageError> {
        let items: Vec<(Vec<u8>, Vec<u8>)> = items.into_iter().map(|(k, v)| (k, encode(&v))).collect();
        self.inner.bulk_put(&items)
    }

    fn bulk_delete(&mut self, keys: Vec<TestKey>) -> Result<usize, StorageError> {
        self.inner.bulk_delete(&keys)
    }

    fn update(&mut self, key: &TestKey, f: impl FnOnce(Option<TestVal>) -> Option<TestVal>) -> Result<(), StorageError> {
        self.inner.update(key, |old| f(old.map(decode)).map(|v| encode(&v)))
    }

    fn delete(&mut self, key: &TestKey) -> Result<bool, StorageError> {
        self.inner.delete(key)
    }

    fn clear(&mut self) -> Result<(), StorageError> {
        self.inner.clear();
        Ok(())
    }

    fn compact(&mut self) -> Result<(), StorageError> {
        self.inner.compact();
        Ok(())
    }

    fn get(&self, key: &TestKey) -> Option<TestVal> {
        self.inner.get(key).map(decode)
    }

    fn contains(&self, key: &TestKey) -> bool {
        self.inner.contains(key)
    }

    fn keys(&self) -> Vec<TestKey> {
        self.inner.keys()
    }

    fn values(&self) -> Vec<TestVal> {
        self.inner.values().into_iter().map(decode).collect()
    }

    fn entries(&self) -> Vec<(TestKey, TestVal)> {
        self.inner.entries().into_iter().map(|(k, v)| (k, decode(v))).collect()
    }

    fn size(&self) -> usize {
        self.inner.size()
    }

    fn is_empty(&self) -> bool {
        self.inner.is_empty()
    }

    fn stats(&self) -> KeyDirStats {
        self.inner.stats()
    }

    fn image(&self) -> Vec<u8> {
        self.inner.image().clone()
    }
}

fn ratio(num: u64, den: u64) -> Ratio {
    Ratio { num, den }
}

fn k(s: &str) -> TestKey {
    s.as_bytes().to_vec()
}

fn v(name: &str, count: u32) -> TestVal {
    TestVal { name: name.into(), count, tags: vec![count, count * 2, count * 3] }
}

fn get(kd: &Dir, key: &TestKey) -> Option<TestVal> {
    kd.get(key)
}

fn create() -> Dir {
    create_with(KeyDirConfig::default())
}

fn create_with(cfg: KeyDirConfig) -> Dir {
    Dir { inner: KeyDir::create(cfg).unwrap() }
}

fn open(image: Vec<u8>) -> Dir {
    open_with(image, KeyDirConfig::default())
}

fn open_with(image: Vec<u8>, cfg: KeyDirConfig) -> Dir {
    Dir { inner: KeyDir::open(image, cfg).unwrap() }
}

// ---- basic put / get ----

#[test]
fn keydir_put_then_get() {
    let mut kd = create();
    kd.put(k("alice"), v("alice", 1)).unwrap();
    assert_eq!(get(&kd, &k("alice")), Some(v("alice", 1)));
}

#[test]
fn get_missing_returns_none() {
    let kd = create();
    assert!(get(&kd, &k("ghost")).is_none());
}

#[test]
fn put_multiple_keys() {
    let mut kd = create();
    kd.put(k("a"), v("alpha", 1)).unwrap();
    kd.put(k("b"), v("beta", 2)).unwrap();
    kd.put(k("c"), v("gamma", 3)).unwrap();
    assert_eq!(kd.size(), 3);
    assert_eq!(get(&kd, &k("a")), Some(v("alpha", 1)));
    assert_eq!(get(&kd, &k("b")), Some(v("beta", 2)));
    assert_eq!(get(&kd, &k("c")), Some(v("gamma", 3)));
}

// ---- overwrite & dead-bytes accounting ----

#[test]
fn overwrite_replaces_value() {
    let mut kd = create();
    kd.put(k("a"), v("first", 1)).unwrap();
    kd.put(k("a"), v("second", 2)).unwrap();
    assert_eq!(kd.size(), 1);
    assert_eq!(get(&kd, &k("a")), Some(v("second", 2)));
}

#[test]
fn overwrite_accumulates_dead_bytes() {
    let mut kd = create_with(KeyDirConfig {
            initial_capacity: 1 << 20,
            compaction_ratio: ratio(99, 100),
        },
    );
    kd.put(k("a"), v("first", 1)).unwrap();
    assert_eq!(kd.stats().dead_bytes, 0);
    kd.put(k("a"), v("second", 2)).unwrap();
    assert!(kd.stats().dead_bytes > 0);
}

// ---- delete & tombstones ----

#[test]
fn delete_removes_key() {
    let mut kd = create();
    kd.put(k("a"), v("x", 1)).unwrap();
    assert!(kd.contains(&k("a")));
    assert!(kd.delete(&k("a")).unwrap());
    assert!(!kd.contains(&k("a")));
    assert!(get(&kd, &k("a")).is_none());
    assert_eq!(kd.size(), 0);
}

#[test]
fn delete_missing_returns_false() {
    let mut kd = create();
    assert!(!kd.delete(&k("ghost")).unwrap());
}

#[test]
fn delete_then_reinsert() {
    let mut kd = create();
    kd.put(k("a"), v("first", 1)).unwrap();
    kd.delete(&k("a")).unwrap();
    kd.put(k("a"), v("second", 2)).unwrap();
    assert_eq!(get(&kd, &k("a")), Some(v("second", 2)));
}

// ---- introspection ----

#[test]
fn len_and_is_empty() {
    let mut kd = create();
    assert_eq!(kd.size(), 0);
    assert!(kd.is_empty());
    kd.put(k("a"), v("a", 1)).unwrap();
    kd.put(k("b"), v("b", 2)).unwrap();
    assert_eq!(kd.size(), 2);
    assert!(!kd.is_empty());
}

#[test]
fn entries_yields_live_pairs_only() {
    let mut kd = create();
    kd.put(k("a"), v("av", 1)).unwrap();
    kd.put(k("b"), v("bv", 2)).unwrap();
    kd.put(k("c"), v("cv", 3)).unwrap();
    kd.delete(&k("b")).unwrap();

    let mut collected: std::collections::HashMap<TestKey, u32> = kd
        .entries()
        .into_iter()
        .map(|(key, val)| (key, val.count))
        .collect();
    assert_eq!(collected.len(), 2);
    assert_eq!(collected.remove(&k("a")), Some(1));
    assert_eq!(collected.remove(&k("c")), Some(3));
}

// ---- persistence: reopen ----

#[test]
fn reopen_preserves_live_entries() {
    let image = {
        let mut kd = create();
        kd.put(k("a"), v("alpha", 1)).unwrap();
        kd.put(k("b"), v("beta", 2)).unwrap();
        kd.image()
    };
    let kd = open(image);
    assert_eq!(kd.size(), 2);
    assert_eq!(get(&kd, &k("a")), Some(v("alpha", 1)));
    assert_eq!(get(&kd, &k("b")), Some(v("beta", 2)));
}

#[test]
fn reopen_replays_tombstones() {
    let image = {
        let mut kd = create();
        kd.put(k("a"), v("a", 1)).unwrap();
        kd.put(k("b"), v("b", 2)).unwrap();
        kd.delete(&k("a")).unwrap();
        kd.image()
    };
    let kd = open(image);
    assert_eq!(kd.size(), 1);
    assert!(!kd.contains(&k("a")));
    assert!(kd.contains(&k("b")));
}

#[test]
fn reopen_last_write_wins() {
    let image = {
        let mut kd = create();
        kd.put(k("a"), v("v1", 1)).unwrap();
        kd.put(k("a"), v("v2", 2)).unwrap();
        kd.put(k("a"), v("v3", 3)).unwrap();
        kd.image()
    };
    let kd = open(image);
    assert_eq!(kd.size(), 1);
    assert_eq!(get(&kd, &k("a")), Some(v("v3", 3)));
}

#[test]
fn reopen_accumulates_dead_bytes_from_overwrites() {
    let image = {
        let mut kd = create_with(KeyDirConfig {
                initial_capacity: 1 << 20,
                compaction_ratio: ratio(99, 100),
            },
        );
        kd.put(k("a"), v("v1", 1)).unwrap();
        kd.put(k("a"), v("v2", 2)).unwrap();
        kd.image()
    };
    let kd = open_with(image, KeyDirConfig {
            initial_capacity: 1 << 20,
            compaction_ratio: ratio(99, 100),
        });
    assert!(
        kd.stats().dead_bytes > 0,
        "rebuild should have seen the overwrite as dead"
    );
}

// ---- growth ----

#[test]
fn grows_when_initial_capacity_exceeded() {
    let cfg = KeyDirConfig {
        initial_capacity: 256,
        compaction_ratio: ratio(1, 1),
    };
    let mut kd = create_with(cfg);
    let initial_len = kd.image().len();

    for i in 0..50u32 {
        kd.put(
            format!("key_{:04}", i).into_bytes(),
            v("payload-grows-the-file", i),
        )
        .unwrap();
    }
    assert!(
        kd.image().len() > initial_len,
        "mmap length should have grown beyond {}",
        initial_len
    );
    for i in 0..50u32 {
        let key = format!("key_{:04}", i).into_bytes();
        assert_eq!(get(&kd, &key), Some(v("payload-grows-the-file", i)));
    }
}

// ---- compaction (in place) ----

#[test]
fn compaction_zeros_dead_bytes_and_preserves_data() {
    let cfg = KeyDirConfig {
        initial_capacity: 8 * 1024,
        compaction_ratio: ratio(3, 10),
    };
    let mut kd = create_with(cfg);

    for round in 0..20u32 {
        for i in 0..10u32 {
            kd.put(format!("k{}", i).into_bytes(), v("payload", round * 10 + i))
                .unwrap();
        }
    }

    assert_eq!(kd.size(), 10);
    assert!(
        (kd.stats().dead_bytes as f64) / (kd.stats().data_size as f64) < 0.3,
        "post-compact dead_bytes ratio too high: {} / {}",
        kd.stats().dead_bytes,
        kd.stats().data_size
    );
    for i in 0..10u32 {
        let got = get(&kd, &format!("k{}", i).into_bytes()).unwrap();
        assert_eq!(got.name, "payload");
        assert_eq!(got.count, 19 * 10 + i);
    }
}

#[test]
fn compaction_drops_tombstoned_keys() {
    let cfg = KeyDirConfig {
        initial_capacity: 4 * 1024,
        compaction_ratio: ratio(3, 10),
    };
    let mut kd = create_with(cfg);

    for i in 0..50u32 {
        kd.put(format!("k{}", i).into_bytes(), v("p", i)).unwrap();
    }
    for i in 0..40u32 {
        kd.delete(&format!("k{}", i).into_bytes()).unwrap();
    }
    for i in 40..50u32 {
        kd.put(format!("k{}", i).into_bytes(), v("p2", i)).unwrap();
    }

    for i in 0..40u32 {
        assert!(!kd.contains(&format!("k{}", i).into_bytes()));
    }
    for i in 40..50u32 {
        assert!(kd.contains(&format!("k{}", i).into_bytes()));
    }
}

#[test]
fn compaction_survives_reopen() {
    let cfg = KeyDirConfig {
        initial_capacity: 8 * 1024,
        compaction_ratio: ratio(3, 10),
    };
    let image = {
        let mut kd = create_with(cfg);
        for round in 0..20u32 {
            for i in 0..10u32 {
                kd.put(format!("k{}", i).into_bytes(), v("p", round * 10 + i))
                    .unwrap();
            }
        }
        kd.image()
    };
    let kd = open_with(image, cfg);
    assert_eq!(kd.size(), 10);
    for i in 0..10u32 {
        let got = get(&kd, &format!("k{}", i).into_bytes()).unwrap();
        assert_eq!(got.count, 19 * 10 + i);
    }
}

#[test]
fn zero_ratio_compacts_on_first_write_after_reopen() {
    let image = {
        let mut kd = create_with(KeyDirConfig {
                initial_capacity: 8 * 1024,
                compaction_ratio: ratio(1, 1),
            },
        );
        for i in 0..20u32 {
            kd.put(k("a"), v("payload", i)).unwrap();
        }
        assert!(kd.stats().dead_bytes > 0);
        kd.image()
    };

    let mut kd = open_with(image, KeyDirConfig {
            initial_capacity: 8 * 1024,
            compaction_ratio: ratio(0, 1),
        });
    assert!(kd.stats().dead_bytes > 0);
    kd.put(k("b"), v("new", 1)).unwrap();

    assert_eq!(kd.stats().dead_bytes, 0);
    assert_eq!(kd.size(), 2);
    assert_eq!(get(&kd, &k("a")).unwrap().count, 19);
}

/// Locks in the in-place compaction contract: after many overwrites
/// have grown the file well past `initial_capacity`, calling
/// `compact` releases the dead bytes by truncating the mmap (rather
/// than provisioning a `.compact` tmp file and renaming it in).
/// Verifies the file length never *grows* across compact, the live
/// entry survives, and `dead_bytes` is zero afterwards.
#[test]
fn in_place_compact_shrinks_file_to_live_size() {
    let cfg = KeyDirConfig {
        initial_capacity: 4 * 1024,
        compaction_ratio: ratio(1, 1),
    };
    let mut kd = create_with(cfg);
    // Repeated overwrites of one key push the file past initial_capacity
    // and leave nothing but dead bytes behind the latest record.
    for i in 0..2000u32 {
        kd.put(k("hot"), v("payload", i)).unwrap();
    }
    let pre_len = kd.image().len();
    kd.compact().unwrap();
    let post_len = kd.image().len();
    assert!(
        post_len <= pre_len,
        "compact should not grow the file ({} -> {})",
        pre_len,
        post_len
    );
    assert_eq!(kd.size(), 1);
    assert_eq!(get(&kd, &k("hot")).unwrap().count, 1999);
    assert_eq!(kd.stats().dead_bytes, 0);
}

// ---- variable-length values round-trip ----

#[test]
fn variable_length_value_round_trips() {
    let mut kd = create();
    let big = TestVal {
        name: "a moderately long string".into(),
        count: 0xDEAD_BEEF,
        tags: (0..32).collect(),
    };
    kd.put(k("big"), big.clone()).unwrap();
    assert_eq!(get(&kd, &k("big")), Some(big));
}

// ---- stress ----

#[test]
fn many_entries_round_trip() {
    let mut kd = create();
    let n = 500u32;
    for i in 0..n {
        kd.put(
            format!("key_{:05}", i).into_bytes(),
            v(&format!("val_{}", i), i),
        )
        .unwrap();
    }
    assert_eq!(kd.size(), n as usize);
    for i in 0..n {
        let key = format!("key_{:05}", i).into_bytes();
        let got = get(&kd, &key).unwrap();
        assert_eq!(got.name, format!("val_{}", i));
        assert_eq!(got.count, i);
    }
}

#[test]
fn many_entries_survive_reopen() {
    let n = 200u32;
    let image = {
        let mut kd = create();
        for i in 0..n {
            kd.put(
                format!("key_{:04}", i).into_bytes(),
                v(&format!("val_{}", i), i),
            )
            .unwrap();
        }
        kd.image()
    };
    let kd = open(image);
    assert_eq!(kd.size(), n as usize);
    for i in 0..n {
        let key = format!("key_{:04}", i).into_bytes();
        let got = get(&kd, &key).unwrap();
        assert_eq!(got.count, i);
    }
}

// ---- empty / fresh ----

#[test]
fn fresh_keydir_has_zero_data() {
    let kd = create();
    assert_eq!(kd.size(), 0);
    assert_eq!(kd.stats().data_size, HEADER_SIZE as u64);
    assert_eq!(kd.stats().dead_bytes, 0);
    assert!(kd.is_empty());
}

#[test]
fn open_fresh_file_is_empty() {
    let image = create().image();
    let kd = open(image);
    assert_eq!(kd.size(), 0);
    assert!(kd.is_empty());
}

// ---- owned iteration ----

#[test]
fn keys_yields_owned() {
    let mut kd = create();
    kd.put(k("a"), v("x", 1)).unwrap();
    kd.put(k("b"), v("y", 2)).unwrap();
    let mut keys: Vec<TestKey> = kd.keys();
    keys.sort();
    assert_eq!(keys, vec![k("a"), k("b")]);
}

#[test]
fn values_yields_owned() {
    let mut kd = create();
    kd.put(k("a"), v("av", 1)).unwrap();
    kd.put(k("b"), v("bv", 2)).unwrap();
    let mut vals: Vec<u32> = kd.values().into_iter().map(|v| v.count).collect();
    vals.sort();
    assert_eq!(vals, vec![1, 2]);
}

// ---- update ----

#[test]
fn keydir_update_modifies_existing() {
    let mut kd = create();
    kd.put(k("a"), v("initial", 10)).unwrap();
    kd.update(&k("a"), |opt| {
        let mut v = opt.unwrap();
        v.count += 5;
        v.tags.push(999);
        Some(v)
    })
    .unwrap();
    let got = get(&kd, &k("a")).unwrap();
    assert_eq!(got.count, 15);
    assert_eq!(got.tags.len(), 4);
    assert_eq!(got.tags[3], 999);
}

#[test]
fn update_inserts_when_absent_and_returns_some() {
    let mut kd = create();
    kd.update(&k("new"), |opt| {
        assert!(opt.is_none());
        Some(v("inserted", 1))
    })
    .unwrap();
    assert_eq!(get(&kd, &k("new")), Some(v("inserted", 1)));
}

#[test]
fn keydir_update_absent_returning_none_is_noop() {
    let mut kd = create();
    kd.update(&k("ghost"), |opt| {
        assert!(opt.is_none());
        None
    })
    .unwrap();
    assert!(get(&kd, &k("ghost")).is_none());
    assert_eq!(kd.size(), 0);
}

#[test]
fn keydir_update_returning_none_deletes_existing() {
    let mut kd = create();
    kd.put(k("a"), v("init", 1)).unwrap();
    kd.update(&k("a"), |opt| {
        assert!(opt.is_some());
        None
    })
    .unwrap();
    assert!(get(&kd, &k("a")).is_none());
    assert_eq!(kd.size(), 0);
}

#[test]
fn keydir_stats_track_data_size_and_dead_bytes() {
    let mut kd = create_with(KeyDirConfig {
            initial_capacity: 8 * 1024,
            compaction_ratio: ratio(1, 1),
        },
    );
    assert_eq!(
        kd.stats(),
        KeyDirStats {
            data_size: HEADER_SIZE as u64,
            dead_bytes: 0,
        }
    );
    assert_eq!(kd.size(), 0);

    kd.put(k("a"), v("first", 1)).unwrap();
    assert_eq!(kd.size(), 1);
    assert!(kd.stats().data_size > HEADER_SIZE as u64);
    assert_eq!(kd.stats().dead_bytes, 0);

    kd.put(k("a"), v("second", 2)).unwrap();
    assert_eq!(kd.size(), 1);
    assert!(kd.stats().dead_bytes > 0);
}

// ---- clear ----

#[test]
fn keydir_clear_removes_all_entries() {
    let mut kd = create();
    kd.put(k("a"), v("av", 1)).unwrap();
    kd.put(k("b"), v("bv", 2)).unwrap();
    assert_eq!(kd.size(), 2);

    kd.clear().unwrap();
    assert_eq!(kd.size(), 0);
    assert!(kd.is_empty());
    assert!(get(&kd, &k("a")).is_none());
    assert_eq!(kd.stats().dead_bytes, 0);
    assert_eq!(kd.stats().data_size, HEADER_SIZE as u64);
}

#[test]
fn clear_then_put_reuses_file() {
    let mut kd = create();
    kd.put(k("a"), v("av", 1)).unwrap();
    kd.clear().unwrap();
    kd.put(k("z"), v("zv", 99)).unwrap();
    assert_eq!(kd.size(), 1);
    assert_eq!(get(&kd, &k("z")), Some(v("zv", 99)));
    assert!(get(&kd, &k("a")).is_none());
}

#[test]
fn clear_survives_reopen() {
    let image = {
        let mut kd = create();
        kd.put(k("a"), v("av", 1)).unwrap();
        kd.put(k("b"), v("bv", 2)).unwrap();
        kd.clear().unwrap();
        kd.image()
    };
    let kd = open(image);
    assert_eq!(kd.size(), 0);
    assert!(kd.is_empty());
}

// ---- put_if_absent / replace ----

#[test]
fn keydir_put_if_absent_inserts_when_missing() {
    let mut kd = create();
    let inserted = kd.put_if_absent(k("a"), v("first", 1)).unwrap();
    assert!(inserted);
    assert_eq!(get(&kd, &k("a")), Some(v("first", 1)));
}

#[test]
fn keydir_put_if_absent_noop_when_present() {
    let mut kd = create();
    kd.put(k("a"), v("first", 1)).unwrap();
    let inserted = kd.put_if_absent(k("a"), v("second", 2)).unwrap();
    assert!(!inserted);
    assert_eq!(get(&kd, &k("a")), Some(v("first", 1)));
}

#[test]
fn keydir_replace_returns_previous_value() {
    let mut kd = create();
    kd.put(k("a"), v("first", 1)).unwrap();
    let prev = kd.replace(k("a"), v("second", 2))
        .unwrap();
    assert_eq!(prev, Some(v("first", 1)));
    assert_eq!(get(&kd, &k("a")), Some(v("second", 2)));
}

#[test]
fn keydir_replace_returns_none_when_absent() {
    let mut kd = create();
    let prev = kd.replace(k("a"), v("new", 99)).unwrap();
    assert!(prev.is_none());
    assert_eq!(get(&kd, &k("a")), Some(v("new", 99)));
}

// ---- bulk_put / bulk_delete ----

#[test]
fn keydir_bulk_put_inserts_all_items() {
    let mut kd = create();
    let items: Vec<(TestKey, TestVal)> = (0..50u32)
        .map(|i| (format!("k{:04}", i).into_bytes(), v("p", i)))
        .collect();
    kd.bulk_put(items).unwrap();
    assert_eq!(kd.size(), 50);
    for i in 0..50u32 {
        assert_eq!(
            get(&kd, &format!("k{:04}", i).into_bytes()),
            Some(v("p", i))
        );
    }
}

#[test]
fn keydir_bulk_delete_returns_removed_count() {
    let mut kd = create();
    for i in 0..10u32 {
        kd.put(format!("k{:02}", i).into_bytes(), v("p", i))
            .unwrap();
    }
    let keys: Vec<TestKey> = (0..5u32)
        .map(|i| format!("k{:02}", i).into_bytes())
        .collect();
    // Add a couple of ghost keys to verify only existing ones are counted.
    let ghosts: Vec<TestKey> = vec![k("ghost1"), k("ghost2")];
    let all: Vec<TestKey> = keys.into_iter().chain(ghosts).collect();
    let n = kd.bulk_delete(all).unwrap();
    assert_eq!(n, 5);
    assert_eq!(kd.size(), 5);
}

// ---- sync / flush ----

#[test]
fn keydir_sync_persists_writes() {
    let image = {
        let mut kd = create();
        kd.put(k("a"), v("alpha", 1)).unwrap();
        kd.image()
    };
    let kd = open(image);
    assert_eq!(get(&kd, &k("a")), Some(v("alpha", 1)));
}

#[test]
fn flush_returns_ok_on_empty_keydir() {
    let kd = create();
    let again = open(kd.image());
    assert!(again.is_empty());
}

// ---- replace / put_if_absent: persistence checks for the overrides ----

#[test]
fn replace_inserts_when_absent_and_persists() {
    // The Backend override of `replace` exercises the Vacant->Insert
    // branch — write the record, fill the slot, return None. Reopen
    // to confirm the new record is durable.
    let image = {
        let mut kd = create();
        let prev = kd.replace(k("fresh"), v("inserted", 7)).unwrap();
        assert!(prev.is_none());
        kd.image()
    };
    let kd = open(image);
    assert_eq!(get(&kd, &k("fresh")), Some(v("inserted", 7)));
}

#[test]
fn replace_returns_old_value_and_accounts_dead_bytes() {
    // The Occupied branch of the override must return the decoded
    // old value AND record the old record's bytes as dead.
    let mut kd = create_with(KeyDirConfig {
            initial_capacity: 1 << 20,
            compaction_ratio: ratio(99, 100),
        },
    );
    kd.put(k("a"), v("v1", 1)).unwrap();
    assert_eq!(kd.stats().dead_bytes, 0);
    let prev = kd.replace(k("a"), v("v2", 2))
        .unwrap();
    assert_eq!(prev, Some(v("v1", 1)));
    assert_eq!(get(&kd, &k("a")), Some(v("v2", 2)));
    assert!(kd.stats().dead_bytes > 0);
}

#[test]
fn put_if_absent_does_not_touch_disk_when_present() {
    // The Occupied branch of the override must NOT call write_entry —
    // no record is appended, data_size doesn't move.
    let mut kd = create_with(KeyDirConfig {
            initial_capacity: 1 << 20,
            compaction_ratio: ratio(99, 100),
        },
    );
    kd.put(k("a"), v("first", 1)).unwrap();
    let size_before = kd.stats().data_size;
    let dead_before = kd.stats().dead_bytes;
    let inserted = kd.put_if_absent(k("a"), v("second", 2)).unwrap();
    assert!(!inserted);
    assert_eq!(get(&kd, &k("a")), Some(v("first", 1)));
    // No write happened.
    assert_eq!(kd.stats().data_size, size_before);
    assert_eq!(kd.stats().dead_bytes, dead_before);
}

#[test]
fn retrieval_cow_variants() {
    let mut kd = create();
    kd.put(k("a"), v("alpha", 1)).unwrap();
    kd.put(k("b"), v("beta", 2)).unwrap();

    let value: Option<TestVal> = kd.get(&k("a"));
    assert_eq!(value, Some(v("alpha", 1)));
    let mut keys: Vec<TestKey> = kd.keys();
    keys.sort();
    assert_eq!(keys, vec![k("a"), k("b")]);
    let mut counts: Vec<u32> = kd.values().into_iter().map(|v| v.count).collect();
    counts.sort();
    assert_eq!(counts, vec![1, 2]);
    let mut entries: Vec<(TestKey, u32)> = kd.entries().into_iter().map(|(k, v)| (k, v.count)).collect();
    entries.sort();
    assert_eq!(entries, vec![(k("a"), 1), (k("b"), 2)]);
}

#[test]
fn keydir_into_owned_yields_decoded_values() {
    let mut kd = create();
    kd.put(k("a"), v("alpha", 1)).unwrap();

    let owned: TestVal = kd.get(&k("a")).unwrap();
    assert_eq!(owned, v("alpha", 1));

    let owned_entries: Vec<(TestKey, TestVal)> = kd.entries();
    assert_eq!(owned_entries, vec![(k("a"), v("alpha", 1))]);
}

#[test]
fn put_if_absent_inserts_and_persists() {
    let image = {
        let mut kd = create();
        assert!(kd.put_if_absent(k("only"), v("once", 1)).unwrap());
        assert!(!kd.put_if_absent(k("only"), v("twice", 2)).unwrap());
        kd.image()
    };
    let kd = open(image);
    assert_eq!(get(&kd, &k("only")), Some(v("once", 1)));
}

/// An empty value is told apart from the end of the log.
#[test]
fn keydir_zero_byte_value_round_trips() {
    let image = {
        let mut kd = KeyDir::create(KeyDirConfig::default()).unwrap();
        kd.put(&k("alpha"), &[]).unwrap();
        kd.put(&k("beta"), &[]).unwrap();
        kd.put(&k("gamma"), &[]).unwrap();
        kd.delete(&k("beta")).unwrap();
        kd.image().clone()
    };
    let kd = KeyDir::open(image, KeyDirConfig::default()).unwrap();
    assert_eq!(kd.size(), 2);
    assert_eq!(kd.get(&k("alpha")), Some(vec![]));
    assert!(kd.get(&k("beta")).is_none());
    assert_eq!(kd.get(&k("gamma")), Some(vec![]));
}

// -- own --

#[test]
fn keydir_refuses_bytes_of_something_else() {
    assert_eq!(KeyDir::open(vec![0; 100], KeyDirConfig::default()).err(), Some(StorageError::InvalidData));
    assert_eq!(KeyDir::open(vec![], KeyDirConfig::default()).err(), Some(StorageError::InvalidData));
    let mut kd = KeyDir::create(KeyDirConfig { initial_capacity: 0, compaction_ratio: ratio(1, 1) }).unwrap();
    kd.put(b"key", b"value").unwrap();
    let mut image = kd.image().clone();
    image.truncate(HEADER_SIZE + 10);
    assert_eq!(KeyDir::open(image, KeyDirConfig::default()).err(), Some(StorageError::InvalidData));
}

#[test]
fn keydir_refuses_a_capacity_beyond_memory() {
    let cfg = KeyDirConfig { initial_capacity: u64::MAX, compaction_ratio: ratio(1, 1) };
    assert_eq!(KeyDir::create(cfg).err(), Some(StorageError::StorageFull));
}

#[test]
fn keydir_live_and_dead_bytes_make_up_the_log() {
    let mut kd = KeyDir::create(KeyDirConfig { initial_capacity: 0, compaction_ratio: ratio(1, 1) }).unwrap();
    kd.put(b"ab", b"12345").unwrap();
    kd.put(b"ab", b"6").unwrap();
    kd.put(b"c", b"").unwrap();
    kd.delete(b"c").unwrap();
    assert_eq!(kd.stats(), KeyDirStats { data_size: 4 + 15 + 11 + 9 + 9, dead_bytes: 15 + 9 + 9 });
    kd.compact();
    assert_eq!(kd.stats(), KeyDirStats { data_size: 4 + 11, dead_bytes: 0 });
    assert_eq!(kd.entries(), vec![(b"ab".to_vec(), b"6".to_vec())]);
}
