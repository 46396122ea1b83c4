//! A hash index from keys to the records that hold their values.

use vstd::prelude::*;

verus! {

/// Where a live record starts in a log, and its length.
#[derive(Clone, Copy, Debug, PartialEq, Eq, Structural)]
pub struct EntryMeta {
    pub offset: u64,
    pub record_size: u32,
}

/// A `hashbrown::HashMap` from byte strings to record positions.
#[verifier::external_body]
pub struct HashIndex {
    map: hashbrown::HashMap<Vec<u8>, EntryMeta>,
}

/// What the map holds.
pub uninterp spec fn index_contents(m: HashIndex) -> Map<Seq<u8>, EntryMeta>;

/// The map with no entries.
pub open spec fn no_entries() -> Map<Seq<u8>, EntryMeta> {
    Map::empty()
}

impl View for HashIndex {
    type V = Map<Seq<u8>, EntryMeta>;

    open spec fn view(&self) -> Map<Seq<u8>, EntryMeta> {
        index_contents(*self)
    }
}

impl HashIndex {
    /// `hashbrown::HashMap::new` makes a map that holds nothing.
    #[verifier::external_body]
    pub(crate) fn new() -> (r: Self)
        ensures
            index_contents(r) == no_entries(),
    {
        HashIndex { map: hashbrown::HashMap::new() }
    }

    /// `hashbrown::HashMap::get` gives the entry of `key`, or `None` where there is none.
    #[verifier::external_body]
    pub(crate) fn get(&self, key: &[u8]) -> (r: Option<EntryMeta>)
        ensures
            r == if index_contents(*self).contains_key(key@) {
                Some(index_contents(*self)[key@])
            } else {
                None
            },
    {
        self.map.get(key).copied()
    }

    /// `hashbrown::HashMap::insert` sets the entry of `key` and leaves the others alone. It
    /// gives the entry that was there before.
    #[verifier::external_body]
    pub(crate) fn insert(&mut self, key: Vec<u8>, meta: EntryMeta) -> (r: Option<EntryMeta>)
        ensures
            index_contents(*final(self)) == index_contents(*old(self)).insert(key@, meta),
            r == if index_contents(*old(self)).contains_key(key@) {
                Some(index_contents(*old(self))[key@])
            } else {
                None
            },
    {
        self.map.insert(key, meta)
    }

    /// `hashbrown::HashMap::remove` takes the entry of `key` out and gives it, or does nothing
    /// where there is none.
    #[verifier::external_body]
    pub(crate) fn remove(&mut self, key: &[u8]) -> (r: Option<EntryMeta>)
        ensures
            index_contents(*final(self)) == index_contents(*old(self)).remove(key@),
            r == if index_contents(*old(self)).contains_key(key@) {
                Some(index_contents(*old(self))[key@])
            } else {
                None
            },
    {
        self.map.remove(key)
    }

    /// `hashbrown::HashMap::clear` takes all entries out.
    #[verifier::external_body]
    pub(crate) fn clear(&mut self)
        ensures
            index_contents(*final(self)) == no_entries(),
    {
        self.map.clear()
    }

    /// `hashbrown::HashMap::len` is the number of entries, of which there are finitely many.
    #[verifier::external_body]
    pub(crate) fn len(&self) -> (r: usize)
        ensures
            r == index_contents(*self).dom().len(),
    {
        self.map.len()
    }

    /// `hashbrown::HashMap::keys` visits each key once, in an order that is left open.
    #[verifier::external_body]
    pub(crate) fn keys(&self) -> (r: Vec<Vec<u8>>)
        ensures
            forall|i: int, j: int| 0 <= i < j < r@.len() ==> #[trigger] r@[i]@ != #[trigger] r@[j]@,
            forall|i: int| 0 <= i < r@.len() ==> index_contents(*self).contains_key(#[trigger] r@[i]@),
            forall|k: Seq<u8>| #[trigger]
                index_contents(*self).contains_key(k) ==> exists|i: int| 0 <= i < r@.len() && #[trigger] r@[i]@ == k,
    {
        self.map.keys().cloned().collect()
    }
}

} // verus!
