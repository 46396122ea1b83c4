use zendb_storage::utils::reusables::{BufPool, PooledBuf};

#[test]
fn acquired_buffer_is_empty() {
    let mut pool = BufPool::new();
    let buf = PooledBuf::acquire(&mut pool);
    assert_eq!(buf.len(), 0);
}

#[test]
fn drop_returns_buffer_to_pool() {
    let mut pool = BufPool::new();
    assert_eq!(pool.len(), 0);
    {
        let buf = PooledBuf::acquire(&mut pool);
        buf.release(&mut pool);
    }
    assert_eq!(pool.len(), 1);
}

#[test]
fn drop_clears_but_preserves_capacity() {
    let mut pool = BufPool::new();
    {
        let mut buf = PooledBuf::acquire(&mut pool);
        buf.extend_from_slice(&[1, 2, 3, 4]);
        assert_eq!(buf.len(), 4);
        assert!(buf.capacity() >= 4);
        buf.release(&mut pool);
    }
    let buf = PooledBuf::acquire(&mut pool);
    assert_eq!(buf.len(), 0);
    assert!(buf.capacity() >= 4, "capacity should be retained across pooling");
}

#[test]
fn lifo_returns_most_recent_buffer() {
    let mut pool = BufPool::new();
    let mut a = PooledBuf::acquire(&mut pool);
    a.reserve(64);
    a.release(&mut pool);
    let mut b = PooledBuf::acquire(&mut pool);
    b.reserve(256);
    b.release(&mut pool);
    let top = PooledBuf::acquire(&mut pool);
    assert!(
        top.capacity() >= 256,
        "expected most-recently-released (256-cap) buffer first, got cap = {}",
        top.capacity()
    );
}

#[test]
fn concurrent_acquires_yield_independent_buffers() {
    let mut pool = BufPool::new();
    let mut a = PooledBuf::acquire(&mut pool);
    let mut b = PooledBuf::acquire(&mut pool);
    a.extend_from_slice(b"alpha");
    b.extend_from_slice(b"bravo");
    assert_eq!(a.as_slice(), b"alpha");
    assert_eq!(b.as_slice(), b"bravo");
}

#[test]
fn two_released_buffers_come_back_in_turn() {
    let mut pool = BufPool::new();
    let mut a = PooledBuf::acquire(&mut pool);
    let mut b = PooledBuf::acquire(&mut pool);
    a.reserve(1000);
    b.reserve(10);
    a.release(&mut pool);
    b.release(&mut pool);
    assert!(PooledBuf::acquire(&mut pool).capacity() < 1000);
    assert!(PooledBuf::acquire(&mut pool).capacity() >= 1000);
    assert_eq!(pool.len(), 0);
}
