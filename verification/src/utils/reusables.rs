//! A stack of byte buffers for reuse.
//!
//! The buffer that was given back last is handed out first. It comes back empty, with the space
//! that it had.

use crate::utils::vecs;
use vstd::prelude::*;

verus! {

/// Buffers that nobody uses.
pub struct BufPool {
    free: Vec<Vec<u8>>,
}

/// A buffer on loan from a pool.
pub struct PooledBuf {
    inner: Vec<u8>,
}

impl BufPool {
    /// The buffers, the one that was given back last at the end.
    pub closed spec fn free(&self) -> Seq<Vec<u8>> {
        self.free@
    }

    /// All buffers are empty.
    pub closed spec fn wf(&self) -> bool {
        forall|i: int| 0 <= i < self.free@.len() ==> (#[trigger] self.free@[i])@.len() == 0
    }

    pub fn new() -> (r: BufPool)
        ensures
            r.wf(),
            r.free().len() == 0,
    {
        BufPool { free: Vec::new() }
    }

    /// The number of buffers that nobody uses.
    pub fn len(&self) -> (r: usize)
        ensures
            r == self.free().len(),
    {
        self.free.len()
    }
}

impl PooledBuf {
    pub closed spec fn buf(&self) -> Vec<u8> {
        self.inner
    }

    /// The bytes in the buffer.
    pub open spec fn view(&self) -> Seq<u8> {
        self.buf()@
    }

    /// Takes the buffer that was given back last, or a new one.
    pub fn acquire(pool: &mut BufPool) -> (r: PooledBuf)
        requires
            old(pool).wf(),
        ensures
            final(pool).wf(),
            r@ == Seq::<u8>::empty(),
            if old(pool).free().len() > 0 {
                r.buf() == old(pool).free().last() && final(pool).free() == old(pool).free().drop_last()
            } else {
                final(pool).free() == old(pool).free()
            },
    {
        match pool.free.pop() {
            Some(inner) => {
                assert(inner == old(pool).free@[old(pool).free@.len() - 1]);
                assert(inner@ =~= Seq::<u8>::empty());
                PooledBuf { inner }
            },
            None => {
                let r = PooledBuf { inner: Vec::new() };
                assert(r@ =~= Seq::<u8>::empty());
                r
            },
        }
    }

    /// Gives the buffer back. What was in it is gone.
    pub fn release(self, pool: &mut BufPool)
        requires
            old(pool).wf(),
        ensures
            final(pool).wf(),
            final(pool).free().len() == old(pool).free().len() + 1,
            final(pool).free().drop_last() == old(pool).free(),
            final(pool).free().last()@ == Seq::<u8>::empty(),
    {
        let mut inner: Vec<u8> = self.inner;
        inner.clear();
        pool.free.push(inner);
        assert(pool.free@.drop_last() =~= old(pool).free@);
    }

    pub fn len(&self) -> (r: usize)
        ensures
            r == self@.len(),
    {
        self.inner.len()
    }

    pub fn as_slice(&self) -> (r: &[u8])
        ensures
            r@ == self@,
    {
        self.inner.as_slice()
    }

    pub fn extend_from_slice(&mut self, bytes: &[u8])
        ensures
            final(self)@ == old(self)@ + bytes@,
    {
        self.inner.extend_from_slice(bytes);
        assert(self.inner@ =~= old(self).inner@ + bytes@);
    }

    /// Makes room for that many bytes more.
    pub fn reserve(&mut self, additional: usize)
        ensures
            final(self)@ == old(self)@,
    {
        self.inner.reserve(additional);
    }

    /// The bytes that the buffer can hold without growing: no fewer than it holds.
    pub fn capacity(&self) -> (r: usize)
        ensures
            r >= self@.len(),
    {
        vecs::capacity_of(&self.inner)
    }
}

/// What is taken after a buffer was given back is the buffer that was put last, and the pool is then
/// as it was before. What the two buffers can hold is not told.
pub proof fn last_released_is_first_acquired(before: BufPool, released: BufPool, r: PooledBuf, after: BufPool)
    requires
        released.free().len() == before.free().len() + 1,
        released.free().drop_last() == before.free(),
        r.buf() == released.free().last(),
        after.free() == released.free().drop_last(),
    ensures
        after.free() == before.free(),
        r.buf() == released.free()[before.free().len() as int],
{
}

} // verus!
