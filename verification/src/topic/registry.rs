//! The consumers of a topic, by name.

use crate::engine::index;
use crate::engine::index::EntryMeta;
use crate::engine::index::HashIndex;
use crate::utils::key::Key;
use vstd::prelude::*;

verus! {

/// Where a consumer stands.
#[derive(Clone, Copy, Debug, PartialEq, Eq, Structural)]
pub struct Standing {
    /// The offset from which it starts when the topic is opened again.
    pub committed: u64,
    /// The offset of the record that it reads next.
    pub volatile: u64,
    /// Whether a handle on it is open.
    pub active: bool,
}

struct Entry {
    name: Vec<u8>,
    standing: Standing,
}

/// Consumers by name. The entries stand in a vector; a hash index finds them.
pub struct Registry {
    index: HashIndex,
    entries: Vec<Entry>,
}

impl View for Registry {
    type V = Map<Seq<u8>, Standing>;

    closed spec fn view(&self) -> Map<Seq<u8>, Standing> {
        Map::new(
            |k: Seq<u8>| self.index@.contains_key(k),
            |k: Seq<u8>| self.entries@[self.index@[k].offset as int].standing,
        )
    }
}

impl Registry {
    pub closed spec fn wf(&self) -> bool {
        &&& forall|k: Seq<u8>| #[trigger]
            self.index@.contains_key(k) ==> self.index@[k].offset < self.entries@.len()
                && self.entries@[self.index@[k].offset as int].name@ == k
        &&& forall|i: int|
            0 <= i < self.entries@.len() ==> self.index@.contains_key((#[trigger] self.entries@[i]).name@)
                && self.index@[self.entries@[i].name@].offset == i
    }

    pub fn new() -> (r: Self)
        ensures
            r.wf(),
            r@ == Map::<Seq<u8>, Standing>::empty(),
    {
        let r: Registry = Registry { index: HashIndex::new(), entries: Vec::new() };
        assert(r@ =~= Map::<Seq<u8>, Standing>::empty());
        r
    }

    /// Where a consumer stands, or `None` where the name is not known.
    pub fn get(&self, name: &[u8]) -> (r: Option<Standing>)
        requires
            self.wf(),
        ensures
            r == if self@.contains_key(name@) {
                Some(self@[name@])
            } else {
                None
            },
    {
        match self.index.get(name) {
            Some(m) => {
                assert(self.index@.contains_key(name@));
                assert(self.entries@.len() == self.entries.len());
                Some(self.entries[m.offset as usize].standing)
            },
            None => None,
        }
    }

    /// Sets where a consumer stands, whether the name is known or not.
    pub fn set(&mut self, name: &Vec<u8>, standing: Standing)
        requires
            old(self).wf(),
        ensures
            final(self).wf(),
            final(self)@ == old(self)@.insert(name@, standing),
    {
        match self.index.get(name) {
            Some(m) => {
                assert(self.index@.contains_key(name@));
                assert(self.entries@.len() == self.entries.len());
                let i: usize = m.offset as usize;
                self.entries[i].standing = standing;
                proof {
                    assert(self.entries@.len() == old(self).entries@.len());
                    assert forall|j: int| 0 <= j < self.entries@.len() implies (#[trigger] self.entries@[j]).name
                        == old(self).entries@[j].name by {}
                    assert forall|j: int| 0 <= j < self.entries@.len() implies self.index@.contains_key(
                        (#[trigger] self.entries@[j]).name@,
                    ) && self.index@[self.entries@[j].name@].offset == j by {
                        assert(self.index@.contains_key(old(self).entries@[j].name@));
                    }
                    assert forall|k: Seq<u8>| #[trigger] self@.contains_key(k) implies self@[k] == old(self)@.insert(
                        name@,
                        standing,
                    )[k] by {
                        if k != name@ {
                            assert(self.index@.contains_key(k));
                            assert(self.index@[k].offset != i);
                        }
                    }
                    assert(self@ =~= old(self)@.insert(name@, standing));
                }
            },
            None => {
                let i: u64 = self.entries.len() as u64;
                self.entries.push(Entry { name: name.duplicate(), standing });
                let _ = self.index.insert(name.duplicate(), EntryMeta { offset: i, record_size: 0 });
                proof {
                    assert forall|j: int| 0 <= j < self.entries@.len() implies self.index@.contains_key(
                        (#[trigger] self.entries@[j]).name@,
                    ) && self.index@[self.entries@[j].name@].offset == j by {
                        if j < i {
                            assert(self.entries@[j] == old(self).entries@[j]);
                            assert(old(self).index@.contains_key(old(self).entries@[j].name@));
                        }
                    }
                    assert forall|k: Seq<u8>| #[trigger] self@.contains_key(k) implies self@[k] == old(self)@.insert(
                        name@,
                        standing,
                    )[k] by {
                        if k != name@ {
                            assert(old(self).index@.contains_key(k));
                        }
                    }
                    assert(self@ =~= old(self)@.insert(name@, standing));
                }
            },
        }
    }

    /// Forgets a consumer. Gives whether the name was known.
    pub fn remove(&mut self, name: &[u8]) -> (r: bool)
        requires
            old(self).wf(),
        ensures
            final(self).wf(),
            final(self)@ == old(self)@.remove(name@),
            r == old(self)@.contains_key(name@),
    {
        let ghost m0 = self.index@;
        let ghost e0 = self.entries@;
        match self.index.remove(name) {
            None => {
                assert(self.index@ =~= m0);
                assert(self@ =~= old(self)@.remove(name@));
                false
            },
            Some(m) => {
                assert(m0.contains_key(name@));
                assert(self.entries@.len() == self.entries.len());
                let i: usize = m.offset as usize;
                let gone: Entry = self.entries.swap_remove(i);
                let ghost n = e0.len() - 1;
                if i < self.entries.len() {
                    let moved: Vec<u8> = self.entries[i].name.duplicate();
                    proof {
                        assert(moved@ == e0[n].name@);
                        assert(m0.contains_key(e0[n].name@));
                        assert(m0[e0[n].name@].offset == n);
                    }
                    let _ = self.index.insert(moved, EntryMeta { offset: i as u64, record_size: 0 });
                }
                proof {
                    assert(e0[i as int].name@ == name@);
                    assert forall|j: int| 0 <= j < self.entries@.len() implies self.index@.contains_key(
                        (#[trigger] self.entries@[j]).name@,
                    ) && self.index@[self.entries@[j].name@].offset == j by {
                        if j != i {
                            assert(self.entries@[j] == e0[j]);
                            assert(m0.contains_key(e0[j].name@) && m0[e0[j].name@].offset == j);
                        } else {
                            assert(self.entries@[j] == e0[n]);
                        }
                    }
                    assert forall|k: Seq<u8>| #[trigger] self.index@.contains_key(k) implies self.index@[k].offset
                        < self.entries@.len() && self.entries@[self.index@[k].offset as int].name@ == k && m0.contains_key(
                        k,
                    ) && k != name@ && self.entries@[self.index@[k].offset as int].standing
                        == e0[m0[k].offset as int].standing by {
                        if i < n && k == e0[n].name@ {
                            assert(m0.contains_key(e0[n].name@) && m0[e0[n].name@].offset == n);
                        } else {
                            assert(m0.contains_key(k));
                            let o = m0[k].offset as int;
                            assert(e0[o].name@ == k);
                            assert(o != i);
                            assert(o != n || i == n);
                            assert(self.entries@[o] == e0[o]);
                        }
                    }
                    assert forall|k: Seq<u8>| #[trigger] m0.contains_key(k) && k != name@ implies self.index@.contains_key(
                        k,
                    ) by {}
                    assert(self@ =~= old(self)@.remove(name@));
                }
                true
            },
        }
    }

    /// The least committed offset, or `None` where there is no consumer.
    pub fn least_committed(&self) -> (r: Option<u64>)
        requires
            self.wf(),
        ensures
            match r {
                Some(c) => {
                    &&& forall|k: Seq<u8>| #[trigger] self@.contains_key(k) ==> c <= self@[k].committed
                    &&& exists|k: Seq<u8>| #[trigger] self@.contains_key(k) && self@[k].committed == c
                },
                None => self@ == Map::<Seq<u8>, Standing>::empty(),
            },
    {
        if self.entries.len() == 0 {
            proof {
                assert forall|k: Seq<u8>| !self.index@.contains_key(k) by {}
                assert(self@ =~= Map::<Seq<u8>, Standing>::empty());
            }
            return None;
        }
        let mut least: u64 = self.entries[0].standing.committed;
        let mut i: usize = 1;
        let ghost mut at: int = 0;
        while i < self.entries.len()
            invariant
                self.wf(),
                1 <= i <= self.entries@.len(),
                0 <= at < i,
                least == self.entries@[at].standing.committed,
                forall|j: int| 0 <= j < i ==> least <= (#[trigger] self.entries@[j]).standing.committed,
            decreases self.entries@.len() - i,
        {
            let c: u64 = self.entries[i].standing.committed;
            if c < least {
                least = c;
                proof {
                    at = i as int;
                }
            }
            i = i + 1;
        }
        proof {
            let k = self.entries@[at].name@;
            assert(self.index@.contains_key(k) && self.index@[k].offset == at);
            assert(self@.contains_key(k) && self@[k].committed == least);
        }
        Some(least)
    }
}

} // verus!
