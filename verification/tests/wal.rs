use zendb_storage::engine::wal::{Wal, WalConfig, WalIter};
use zendb_storage::error::StorageError;
use zendb_storage::utils::time::Duration;

fn default_cfg() -> WalConfig {
    WalConfig::default()
}

fn at(ms: u64) -> Duration {
    Duration::from_millis(ms)
}

fn all(wal: Wal) -> Vec<Vec<u8>> {
    let mut entries = Vec::new();
    let mut iter: WalIter = wal.into_iter();
    while let Some(e) = iter.next() {
        entries.push(e.data);
    }
    entries
}

#[test]
fn append_and_iterate() {
    let mut wal = Wal::create(default_cfg(), at(0));
    wal.append(b"hello", at(0)).unwrap();
    wal.append(b"world", at(0)).unwrap();
    wal.sync(at(0));
    let entries = all(wal);
    assert_eq!(entries, vec![b"hello".to_vec(), b"world".to_vec()]);
}

#[test]
fn wal_reopen() {
    let mut wal = Wal::create(default_cfg(), at(0));
    wal.append(b"persistent", at(0)).unwrap();
    wal.sync(at(0));
    let entries = all(Wal::open(wal.image().clone(), default_cfg(), at(0)));
    assert_eq!(entries, vec![b"persistent".to_vec()]);
}

#[test]
fn empty() {
    let wal = Wal::create(default_cfg(), at(0));
    assert_eq!(all(wal).len(), 0);
}

#[test]
fn auto_flush_on_threshold() {
    let cfg = WalConfig {
        max_buf: 1,
        ..default_cfg()
    };
    let mut wal = Wal::create(cfg, at(0));
    wal.append(b"a", at(0)).unwrap();
    wal.append(b"b", at(0)).unwrap();
    let entries = all(wal);
    assert_eq!(entries, vec![b"a".to_vec(), b"b".to_vec()]);
}

#[test]
fn into_iter_flushes_implicitly() {
    let mut wal = Wal::create(default_cfg(), at(0));
    wal.append(b"unsynced", at(0)).unwrap();
    let entries = all(wal);
    assert_eq!(entries, vec![b"unsynced".to_vec()]);
}

#[test]
fn linger_flushes_on_append() {
    let cfg = WalConfig {
        linger: Some(Duration::from_millis(10)),
        ..default_cfg()
    };
    let mut wal = Wal::create(cfg, at(0));
    wal.append(b"first", at(0)).unwrap();
    wal.append(b"second", at(20)).unwrap();
    wal.sync(at(20));
    let entries = all(wal);
    assert_eq!(entries, vec![b"first".to_vec(), b"second".to_vec()]);
}

#[test]
fn linger_does_not_flush_too_soon() {
    let cfg = WalConfig {
        linger: Some(Duration::from_secs(10)),
        ..default_cfg()
    };
    let mut wal = Wal::create(cfg, at(0));
    wal.append(b"a", at(0)).unwrap();
    wal.append(b"b", at(0)).unwrap();
    let entries = all(wal);
    assert_eq!(entries, vec![b"a".to_vec(), b"b".to_vec()]);
}

#[test]
fn flush_if_stale_idle() {
    let cfg = WalConfig {
        linger: Some(Duration::from_millis(10)),
        ..default_cfg()
    };
    let mut wal = Wal::create(cfg, at(0));
    wal.append(b"idle_data", at(0)).unwrap();
    let flushed = wal.flush_if_stale(at(20));
    assert!(flushed);
    let entries = all(wal);
    assert_eq!(entries, vec![b"idle_data".to_vec()]);
}

#[test]
fn flush_if_stale_noop() {
    let mut wal = Wal::create(default_cfg(), at(0));
    wal.append(b"data", at(0)).unwrap();
    let flushed = wal.flush_if_stale(at(0));
    assert!(!flushed, "should be no-op when no linger configured");
}

#[test]
fn flush_if_stale_empty_buffer() {
    let cfg = WalConfig {
        linger: Some(Duration::from_millis(1)),
        ..default_cfg()
    };
    let mut wal = Wal::create(cfg, at(0));
    let flushed = wal.flush_if_stale(at(10));
    assert!(!flushed, "empty buffer so nothing to flush");
}

#[test]
fn direct_write_large_entry() {
    let cfg = WalConfig {
        max_buf: 64,
        ..default_cfg()
    };
    let mut wal = Wal::create(cfg, at(0));
    let large = vec![0xABu8; 100];
    wal.append(&large, at(0)).unwrap();
    wal.sync(at(0));
    let entries = all(wal);
    assert_eq!(entries.len(), 1);
    assert_eq!(entries[0], large);
}

#[test]
fn ordering_mixed_small_and_large() {
    let cfg = WalConfig {
        max_buf: 64,
        ..default_cfg()
    };
    let mut wal = Wal::create(cfg, at(0));
    wal.append(b"small1", at(0)).unwrap();
    wal.append(b"small2", at(0)).unwrap();
    let large = vec![0xCDu8; 200];
    wal.append(&large, at(0)).unwrap();
    wal.append(b"small3", at(0)).unwrap();
    wal.sync(at(0));
    let entries = all(wal);
    assert_eq!(entries.len(), 4);
    assert_eq!(entries[0], b"small1".to_vec());
    assert_eq!(entries[1], b"small2".to_vec());
    assert_eq!(entries[2], large);
    assert_eq!(entries[3], b"small3".to_vec());
}

#[test]
fn flush_before_direct_preserves_order() {
    let cfg = WalConfig {
        max_buf: 64,
        ..default_cfg()
    };
    let mut wal = Wal::create(cfg, at(0));
    wal.append(b"a", at(0)).unwrap();
    wal.append(b"b", at(0)).unwrap();
    let large = vec![0xEFu8; 128];
    wal.append(&large, at(0)).unwrap();
    wal.sync(at(0));
    let entries = all(wal);
    assert_eq!(entries[0], b"a".to_vec());
    assert_eq!(entries[1], b"b".to_vec());
    assert_eq!(entries[2], large);
}

#[test]
fn wal_config_round_trip() {
    let cfg = WalConfig { max_buf: 77, linger: Some(Duration::from_millis(1234)) };
    let mut bytes = vec![];
    cfg.encode(&mut bytes);
    let mut expected = 77u64.to_le_bytes().to_vec();
    expected.push(1);
    expected.extend_from_slice(&1234u128.to_le_bytes());
    assert_eq!(bytes, expected);
    bytes.push(99);
    assert_eq!(WalConfig::decode(&bytes), Ok((cfg, 25)));
    let plain = WalConfig { max_buf: 5, linger: None };
    let mut bytes = vec![];
    plain.encode(&mut bytes);
    assert_eq!(WalConfig::decode(&bytes), Ok((plain, 9)));
    assert!(WalConfig::decode(&bytes[..8]).is_err());
}

#[test]
fn wal_writes_when_an_entry_waited_too_long() {
    let cfg = WalConfig { linger: Some(Duration::from_millis(10)), ..default_cfg() };
    let mut wal = Wal::create(cfg, at(0));
    wal.append(b"first", at(0)).unwrap();
    assert_eq!(wal.buffered(), 9);
    assert_eq!(wal.image().len(), 0);
    wal.append(b"second", at(10)).unwrap();
    assert_eq!(wal.buffered(), 10);
    assert_eq!(wal.image(), &[&5u32.to_le_bytes()[..], b"first"].concat());
}

#[test]
fn wal_ignores_an_entry_that_was_cut_off() {
    let mut wal = Wal::create(default_cfg(), at(0));
    wal.append(b"whole", at(0)).unwrap();
    wal.append(b"cut off", at(0)).unwrap();
    wal.sync(at(0));
    let mut image = wal.image().clone();
    image.truncate(image.len() - 3);
    let mut wal = Wal::open(image, default_cfg(), at(0));
    wal.append(b"after", at(0)).unwrap();
    assert_eq!(all(wal), vec![b"whole".to_vec(), b"after".to_vec()]);
}

#[test]
fn wal_config_keeps_whole_milliseconds() {
    let config = WalConfig { max_buf: 7, linger: Some(Duration { nanos: 2_999_999 }) };
    let mut bytes = Vec::new();
    config.encode(&mut bytes);
    let (back, taken) = WalConfig::decode(&bytes).unwrap();
    assert_eq!(taken, bytes.len());
    assert_eq!(back.max_buf, 7);
    assert_eq!(back.linger, Some(Duration { nanos: 2_000_000 }));
}
