use zendb_storage::engine::hashtable::HashTable;
use zendb_storage::error::StorageError;

#[test]
fn put_and_get() {
    let mut ht = HashTable::create(16, 64);
    ht.put(b"hello", b"world").unwrap();
    assert_eq!(ht.get(b"hello").unwrap(), b"world");
    assert!(ht.get(b"missing").is_none());
}

#[test]
fn hashtable_delete() {
    let mut ht = HashTable::create(16, 64);
    ht.put(b"x", b"y").unwrap();
    assert!(ht.get(b"x").is_some());
    ht.delete(b"x");
    assert!(ht.get(b"x").is_none());
}

#[test]
fn hashtable_overwrite() {
    let mut ht = HashTable::create(16, 64);
    ht.put(b"k", b"v1").unwrap();
    ht.put(b"k", b"v2").unwrap();
    assert_eq!(ht.get(b"k").unwrap(), b"v2");
}

#[test]
fn hashtable_reopen() {
    let mut ht = HashTable::create(16, 64);
    ht.put(b"persist", b"me").unwrap();
    let ht = HashTable::open(&ht.image(), 16).unwrap();
    assert_eq!(ht.get(b"persist").unwrap(), b"me");
}

#[test]
fn hashtable_overflow_pages_survive_reopening() {
    let mut ht = HashTable::create(1, 16);
    for i in 0u32..40 {
        ht.put(&i.to_le_bytes(), &[i as u8; 400]).unwrap();
    }
    let mut ht = HashTable::open(&ht.image(), 1).unwrap();
    ht.put(b"one more", &[9; 400]).unwrap();
    for i in 0u32..40 {
        assert_eq!(ht.get(&i.to_le_bytes()), Some(vec![i as u8; 400]));
    }
    assert_eq!(ht.get(b"one more"), Some(vec![9; 400]));
}

#[test]
fn hashtable_refuses_what_does_not_fit_and_keeps_the_rest() {
    let mut ht = HashTable::create(1, 2);
    ht.put(b"a", b"1").unwrap();
    assert_eq!(ht.put(b"big", &vec![0; 5000]).err(), Some(StorageError::StorageFull));
    let mut n: u32 = 0;
    while ht.put(&n.to_le_bytes(), &[7; 1000]).is_ok() {
        n = n + 1;
    }
    assert!(n > 0);
    assert_eq!(ht.get(b"a").unwrap(), b"1");
    for i in 0..n {
        assert_eq!(ht.get(&i.to_le_bytes()), Some(vec![7; 1000]));
    }
    assert!(ht.get(&n.to_le_bytes()).is_none());
}

#[test]
fn hashtable_refuses_bytes_of_something_else() {
    assert_eq!(HashTable::open(&vec![1, 2, 3], 16).err(), Some(StorageError::InvalidData));
}

#[test]
fn hashtable_takes_large_values_after_reopening() {
    let mut ht = HashTable::create(1, 64);
    for key in [b"a", b"b", b"c", b"d"] {
        ht.put(key, &[7; 2000]).unwrap();
    }
    let mut ht = HashTable::open(&ht.image(), 1).unwrap();
    ht.put(b"e", &[7; 2000]).unwrap();
    for key in [b"a", b"b", b"c", b"d", b"e"] {
        assert_eq!(ht.get(key), Some(vec![7; 2000]));
    }
}

#[test]
fn hashtable_wastes_no_page() {
    // One page for the directory, one bucket, and two pages that it can grow by.
    let mut ht = HashTable::create(1, 4);
    for _ in 0..20 {
        for key in [b"a", b"b", b"c"] {
            ht.put(key, &[7; 3000]).unwrap();
        }
        assert_eq!(ht.put(b"d", &[7; 3000]).err(), Some(StorageError::StorageFull));
    }
    assert_eq!(ht.get(b"c"), Some(vec![7; 3000]));
}
