//! An ordered map in memory: a skip list whose nodes live in an arena.
//!
//! The links of all nodes stand in one table, a row of `MAX_LEVEL` links for each node. Row 0
//! is the head; row `i + 1` belongs to node `i` of the arena.

use crate::engine::ordered;
use crate::engine::skip_model;
use crate::engine::skip_model::MAX_LEVEL;
use crate::error::StorageError;
use crate::utils::key::Key;
use crate::utils::lex::Order;
use crate::utils::rand;
use crate::utils::rand::Rng;
use crate::utils::vecs;
use vstd::prelude::*;

verus! {

/// Most nodes that a list can have.
pub const MAX_NODES: usize = usize::MAX / 32;

/// How many entries a list takes.
#[derive(Clone, Copy, Debug, PartialEq, Eq, Structural)]
pub enum SkipListCapacity {
    /// As many as memory holds.
    Unbounded,
    /// Space for `max_entries` nodes is allocated up front; new keys are refused once all are
    /// taken. Keys that are there can still be overwritten.
    Bounded { max_entries: usize },
}

impl Default for SkipListCapacity {
    fn default() -> (c: Self)
        ensures
            c == SkipListCapacity::Unbounded,
    {
        SkipListCapacity::Unbounded
    }
}

#[derive(Clone, Copy, Debug, PartialEq, Eq, Structural)]
pub struct SkipListConfig {
    pub capacity: SkipListCapacity,
}

impl Default for SkipListConfig {
    fn default() -> (c: Self)
        ensures
            c.capacity == SkipListCapacity::Unbounded,
    {
        SkipListConfig { capacity: SkipListCapacity::Unbounded }
    }
}

/// Counters of a list.
#[derive(Clone, Copy, Debug, PartialEq, Eq, Structural)]
pub struct SkipListStats {
    pub entries: usize,
}

struct Node<K, V> {
    key: K,
    /// `None` in a node that is free.
    value: Option<V>,
    /// Row of the node before, or 0.
    prev: usize,
    level: usize,
}

/// A place in a list: the rows before it on each level, and the row at it.
pub struct Finger {
    update: Vec<usize>,
    cursor: usize,
}

/// An ordered map in memory.
pub struct SkipList<K: Key, V> {
    arena: Vec<Node<K, V>>,
    nexts: Vec<usize>,
    free: Vec<usize>,
    tail: usize,
    height: usize,
    config: SkipListConfig,
    rng: Rng,
    order: Ghost<Seq<int>>,
}

/// The most entries that a configuration allows.
pub open spec fn limit(config: SkipListConfig) -> int {
    match config.capacity {
        SkipListCapacity::Unbounded => MAX_NODES as int,
        SkipListCapacity::Bounded { max_entries } => if max_entries < MAX_NODES {
            max_entries as int
        } else {
            MAX_NODES as int
        },
    }
}

/// As many entries are allowed as a bound says, up to the number that can be told apart; without a
/// bound, that number.
pub proof fn bound_is_the_limit(config: SkipListConfig)
    ensures
        limit(config) <= MAX_NODES,
        config.capacity is Unbounded ==> limit(config) == MAX_NODES,
        config.capacity matches SkipListCapacity::Bounded { max_entries } ==> limit(config) <= max_entries && (limit(config)
            == max_entries || limit(config) == MAX_NODES),
{
}

/// `v` is what the map has under `k`.
pub open spec fn found<A, V>(m: Map<A, V>, k: A, v: Option<V>) -> bool {
    match v {
        Some(x) => m.contains_key(k) && x == m[k],
        None => !m.contains_key(k),
    }
}

/// How many nodes there are with so many entries: nodes are made only when none is free.
pub open spec fn peak(nodes: int, entries: int) -> int {
    if nodes < entries {
        entries
    } else {
        nodes
    }
}

/// How many coins in a row fall right, of at most `n`, and the state of the generator after that: a
/// coin falls right where the number is even.
pub open spec fn tosses(state: u64, n: nat) -> (int, u64)
    decreases n,
{
    if n == 0 {
        (0, state)
    } else {
        let s = rand::xorshift(state);
        if s & 1 != 0 {
            (0, s)
        } else {
            let t = tosses(s, (n - 1) as nat);
            (t.0 + 1, t.1)
        }
    }
}

impl<K: Key, V> View for SkipList<K, V> {
    type V = Map<K::V, V>;

    open spec fn view(&self) -> Map<K::V, V> {
        ordered::map_of(self.items())
    }
}

impl<K: Key, V> SkipList<K, V> {
    spec fn lvs(&self) -> Seq<int> {
        Seq::new(
            self.order@.len(),
            |p: int|
                if p == 0 {
                    MAX_LEVEL as int
                } else {
                    self.arena@[self.order@[p] - 1].level as int
                },
        )
    }

    /// The key at a position behind the head.
    spec fn key_at(&self, p: int) -> K::V {
        self.arena@[self.order@[p] - 1].key@
    }

    spec fn value_at(&self, p: int) -> V {
        self.arena@[self.order@[p] - 1].value->0
    }

    /// The entries in key order.
    pub closed spec fn items(&self) -> Seq<(K::V, V)> {
        Seq::new((self.order@.len() - 1) as nat, |i: int| (self.key_at(i + 1), self.value_at(i + 1)))
    }

    pub closed spec fn config_view(&self) -> SkipListConfig {
        self.config
    }

    /// How many nodes there are, in use or free.
    pub closed spec fn node_count(&self) -> int {
        self.arena@.len() as int
    }

    spec fn sorted(&self) -> bool {
        forall|p: int, q: int|
            1 <= p < q < self.order@.len() ==> K::before(#[trigger] self.key_at(p), #[trigger] self.key_at(q))
    }

    /// Position `p` knows the one before it.
    spec fn back_ok(&self, p: int) -> bool {
        self.arena@[self.order@[p] - 1].prev == self.order@[p - 1]
    }

    spec fn free_ok(&self) -> bool {
        &&& forall|i: int| 0 <= i < self.free@.len() ==> #[trigger] self.free@[i] < self.arena@.len()
        &&& forall|i: int, j: int| 0 <= i < j < self.free@.len() ==> #[trigger] self.free@[i] != #[trigger] self.free@[j]
        &&& forall|i: int, p: int|
            0 <= i < self.free@.len() && 0 <= p < self.order@.len() ==> #[trigger] self.free@[i] + 1
                != #[trigger] self.order@[p]
        &&& self.arena@.len() == self.order@.len() - 1 + self.free@.len()
    }

    pub closed spec fn wf(&self) -> bool {
        &&& skip_model::rows_ok(self.order@, self.lvs(), self.arena@.len() as int)
        &&& skip_model::links_ok(self.order@, self.lvs(), self.nexts@)
        &&& self.nexts@.len() == (self.arena@.len() + 1) * MAX_LEVEL
        &&& self.arena@.len() <= limit(self.config)
        &&& self.sorted()
        &&& forall|p: int| 1 <= p < self.order@.len() ==> #[trigger] self.back_ok(p)
        &&& self.tail == self.order@.last()
        &&& self.height <= MAX_LEVEL
        &&& forall|p: int| 1 <= p < self.order@.len() ==> #[trigger] self.lvs()[p] <= self.height
        &&& forall|p: int| 1 <= p < self.order@.len() ==> self.arena@[#[trigger] self.order@[p] - 1].value is Some
        &&& self.free_ok()
    }

    /// The finger points at position `c`.
    spec fn finger_at(&self, f: Finger, c: int) -> bool {
        &&& 1 <= c <= self.order@.len()
        &&& skip_model::update_ok(self.order@, self.lvs(), f.update@, c)
        &&& f.cursor == skip_model::row_at(self.order@, c)
    }

    /// Keys before position `c` are less than `k`, and those from there on are not.
    spec fn split_at(&self, c: int, k: K::V) -> bool {
        &&& forall|p: int| 1 <= p < c ==> K::before(#[trigger] self.key_at(p), k)
        &&& forall|p: int| c <= p < self.order@.len() ==> !K::before(#[trigger] self.key_at(p), k)
    }

    /// The entries of a list rise, and make up its map. Each has a node of its own.
    pub proof fn lemma_items(&self)
        requires
            self.wf(),
        ensures
            ordered::rising::<K, V>(self.items()),
            self@.dom().finite(),
            self@.len() == self.items().len(),
            self@.len() <= self.node_count(),
    {
        assert forall|i: int, j: int| 0 <= i < j < self.items().len() implies K::before(
            #[trigger] self.items()[i].0,
            #[trigger] self.items()[j].0,
        ) by {
            assert(K::before(self.key_at(i + 1), self.key_at(j + 1)));
        }
        ordered::lemma_len::<K, V>(self.items());
    }

    /// An empty list.
    pub fn new(config: SkipListConfig) -> (r: Self)
        requires
            config.capacity matches SkipListCapacity::Bounded { max_entries } ==> max_entries <= MAX_NODES,
        ensures
            r.node_count() == 0,
            r.wf(),
            r@ == Map::<K::V, V>::empty(),
            r.items() == Seq::<(K::V, V)>::empty(),
            r.config_view() == config,
    {
        let initial: usize = match config.capacity {
            SkipListCapacity::Unbounded => 0,
            SkipListCapacity::Bounded { max_entries } => max_entries,
        };
        let mut nexts: Vec<usize> = Vec::new();
        nexts.resize(MAX_LEVEL, 0);
        let ghost start: Seq<int> = seq![0int];
        let r: Self = SkipList {
            arena: Vec::with_capacity(initial),
            nexts,
            free: Vec::with_capacity(initial),
            tail: 0,
            height: 0,
            config,
            rng: Rng::new(),
            order: Ghost(start),
        };
        proof {
            let order = r.order@;
            assert forall|p: int, l: int| 0 <= p < order.len() && 0 <= l < r.lvs()[p] implies #[trigger] skip_model::link_ok(
                order,
                r.lvs(),
                r.nexts@,
                p,
                l,
            ) by {
                assert(skip_model::nxt(r.lvs(), l, 0) == 1);
                assert(r.nexts@[l] == 0);
            }
            assert(r.items() =~= Seq::empty());
            assert(r@ =~= Map::<K::V, V>::empty());
        }
        r
    }

    /// The link of a row on a level.
    fn next_at(&self, row: usize, level: usize, Ghost(p): Ghost<int>) -> (r: usize)
        requires
            self.wf(),
            0 <= p < self.order@.len(),
            row == self.order@[p],
            level < self.lvs()[p],
        ensures
            r == skip_model::row_at(self.order@, skip_model::nxt(self.lvs(), level as int, p)),
    {
        assert(skip_model::link_ok(self.order@, self.lvs(), self.nexts@, p, level as int));
        assert(row <= self.arena@.len());
        assert(1 <= self.lvs()[p] <= MAX_LEVEL);
        assert(self.nexts@.len() == self.nexts.len());
        self.nexts[row * MAX_LEVEL + level]
    }

    /// Whether the key of a row comes before `key`. False for no row.
    fn row_before(&self, row: usize, key: &K, Ghost(p): Ghost<int>) -> (r: bool)
        requires
            self.wf(),
            1 <= p <= self.order@.len(),
            row == skip_model::row_at(self.order@, p),
        ensures
            r == (p < self.order@.len() && K::before(self.key_at(p), key@)),
    {
        if row == 0 {
            return false;
        }
        match self.arena[row - 1].key.compare(key) {
            Order::Less => true,
            Order::Equal => {
                proof {
                    K::irreflexive(key@);
                }
                false
            },
            Order::Greater => {
                proof {
                    if K::before(self.key_at(p), key@) {
                        K::transitive(key@, self.key_at(p), key@);
                        K::irreflexive(key@);
                    }
                }
                false
            },
        }
    }

    /// Position `p` is the last one more than `l` levels high with a key less than `k`.
    spec fn is_pred(&self, l: int, p: int, k: K::V) -> bool {
        &&& 0 <= p < self.order@.len()
        &&& self.lvs()[p] > l
        &&& p >= 1 ==> K::before(self.key_at(p), k)
        &&& forall|r: int| p < r < self.order@.len() && self.lvs()[r] > l ==> !K::before(#[trigger] self.key_at(r), k)
    }

    proof fn lemma_after(&self, p: int, q: int, k: K::V)
        requires
            self.wf(),
            1 <= p <= q < self.order@.len(),
            K::before(self.key_at(q), k),
        ensures
            K::before(self.key_at(p), k),
    {
        if p < q {
            K::transitive(self.key_at(p), self.key_at(q), k);
        }
    }

    /// Walks down the levels to the first key that is not less than `key`.
    fn search(&self, key: &K) -> (r: (Finger, Ghost<int>))
        requires
            self.wf(),
        ensures
            self.finger_at(r.0, r.1@),
            self.split_at(r.1@, key@),
    {
        let ghost order = self.order@;
        let ghost lvs = self.lvs();
        let mut update: Vec<usize> = Vec::new();
        update.resize(MAX_LEVEL, 0);
        let mut prev: usize = 0;
        let ghost mut p: int = 0;
        let ghost mut preds: Seq<int> = Seq::new(MAX_LEVEL as nat, |l: int| 0int);
        let mut level: usize = self.height;
        proof {
            assert forall|l: int| self.height <= l < MAX_LEVEL implies self.is_pred(l, #[trigger] preds[l], key@) by {
                assert forall|r: int| 0 < r < order.len() && lvs[r] > l implies !K::before(
                    #[trigger] self.key_at(r),
                    key@,
                ) by {
                    assert(lvs[r] <= self.height);
                }
            }
        }
        while level > 0
            invariant
                self.wf(),
                order == self.order@,
                lvs == self.lvs(),
                level <= self.height <= MAX_LEVEL,
                update@.len() == MAX_LEVEL,
                preds.len() == MAX_LEVEL,
                0 <= p < order.len(),
                prev == order[p],
                lvs[p] >= level,
                p >= 1 ==> K::before(self.key_at(p), key@),
                forall|l: int| level <= l < MAX_LEVEL ==> self.is_pred(l, #[trigger] preds[l], key@),
                forall|l: int| level <= l < MAX_LEVEL ==> #[trigger] update@[l] == order[preds[l]],
            decreases level,
        {
            level = level - 1;
            let mut x: usize = self.next_at(prev, level, Ghost(p));
            proof {
                skip_model::lemma_nxt(lvs, level as int, p);
            }
            while self.row_before(x, key, Ghost(skip_model::nxt(lvs, level as int, p)))
                invariant
                    self.wf(),
                    order == self.order@,
                    lvs == self.lvs(),
                    level < MAX_LEVEL,
                    0 <= p < order.len(),
                    prev == order[p],
                    lvs[p] > level,
                    p >= 1 ==> K::before(self.key_at(p), key@),
                    x == skip_model::row_at(order, skip_model::nxt(lvs, level as int, p)),
                    p < skip_model::nxt(lvs, level as int, p) <= order.len(),
                decreases order.len() - p,
            {
                let ghost q = skip_model::nxt(lvs, level as int, p);
                proof {
                    skip_model::lemma_nxt(lvs, level as int, p);
                    p = q;
                    skip_model::lemma_nxt(lvs, level as int, q);
                }
                prev = x;
                x = self.next_at(prev, level, Ghost(p));
            }
            update.set(level, prev);
            proof {
                let q = skip_model::nxt(lvs, level as int, p);
                skip_model::lemma_nxt(lvs, level as int, p);
                assert forall|r: int| p < r < order.len() && lvs[r] > level implies !K::before(
                    #[trigger] self.key_at(r),
                    key@,
                ) by {
                    assert(r >= q) by {
                        if r < q {
                            assert(lvs[r] <= level);
                        }
                    }
                    if K::before(self.key_at(r), key@) {
                        self.lemma_after(q, r, key@);
                    }
                }
                let old_preds = preds;
                preds = preds.update(level as int, p);
                assert forall|l: int| level <= l < MAX_LEVEL implies self.is_pred(l, #[trigger] preds[l], key@) by {
                    if l > level {
                        assert(preds[l] == old_preds[l]);
                    }
                }
                assert forall|l: int| level <= l < MAX_LEVEL implies #[trigger] update@[l] == order[preds[l]] by {
                    if l > level {
                        assert(preds[l] == old_preds[l]);
                    }
                }
            }
        }
        let ghost c = preds[0] + 1;
        proof {
            assert(self.is_pred(0, preds[0], key@));
            assert(update@[0] == order[preds[0]]);
            assert forall|r: int| 1 <= r < c implies K::before(#[trigger] self.key_at(r), key@) by {
                self.lemma_after(r, preds[0], key@);
            }
            assert forall|r: int| c <= r < order.len() implies !K::before(#[trigger] self.key_at(r), key@) by {
                assert(lvs[r] >= 1);
            }
            assert forall|l: int| 0 <= l < MAX_LEVEL implies #[trigger] update@[l] == order[skip_model::prv(lvs, l, c)] by {
                assert(self.is_pred(l, preds[l], key@));
                assert(preds[l] < c) by {
                    if preds[l] >= c {
                        assert(!K::before(self.key_at(preds[l]), key@));
                    }
                }
                assert forall|r: int| preds[l] < r < c implies #[trigger] lvs[r] <= l by {
                    assert(K::before(self.key_at(r), key@));
                }
                skip_model::lemma_prv_is(lvs, l, c, preds[l]);
            }
            if c < order.len() {
                assert(lvs[c] >= 1);
            }
            skip_model::lemma_nxt_is(lvs, 0, preds[0], c);
        }
        let first: usize = update[0];
        let cursor: usize = self.next_at(first, 0, Ghost(preds[0]));
        (Finger { update, cursor }, Ghost(c))
    }

    /// Whether the finger points at this key.
    fn finger_matches(&self, f: &Finger, key: &K, Ghost(c): Ghost<int>) -> (r: bool)
        requires
            self.wf(),
            self.finger_at(*f, c),
            self.split_at(c, key@),
        ensures
            r == self@.contains_key(key@),
            r ==> c < self.order@.len() && self.key_at(c) == key@,
            !r ==> forall|p: int| c <= p < self.order@.len() ==> K::before(key@, #[trigger] self.key_at(p)),
    {
        let ghost order = self.order@;
        proof {
            self.lemma_items();
        }
        let here: bool = if f.cursor == 0 {
            false
        } else {
            match self.arena[f.cursor - 1].key.compare(key) {
                Order::Equal => true,
                Order::Less => false,
                Order::Greater => false,
            }
        };
        proof {
            if here {
                ordered::lemma_place::<K, V>(self.items(), c - 1);
            } else {
                assert forall|p: int| c <= p < order.len() implies K::before(key@, #[trigger] self.key_at(p)) by {
                    assert(!K::before(self.key_at(c), key@));
                    assert(K::before(key@, self.key_at(c)));
                    if p > c {
                        K::transitive(key@, self.key_at(c), self.key_at(p));
                    }
                }
                self.lemma_split_items(c, key@);
                ordered::lemma_absent::<K, V>(self.items(), c - 1, key@);
            }
        }
        here
    }

    proof fn lemma_split_items(&self, c: int, k: K::V)
        requires
            self.wf(),
            self.split_at(c, k),
            1 <= c <= self.order@.len(),
            forall|p: int| c <= p < self.order@.len() ==> K::before(k, #[trigger] self.key_at(p)),
        ensures
            forall|i: int| 0 <= i < c - 1 ==> K::before(#[trigger] self.items()[i].0, k),
            forall|i: int| c - 1 <= i < self.items().len() ==> K::before(k, #[trigger] self.items()[i].0),
    {
        assert forall|i: int| 0 <= i < c - 1 implies K::before(#[trigger] self.items()[i].0, k) by {
            assert(K::before(self.key_at(i + 1), k));
        }
        assert forall|i: int| c - 1 <= i < self.items().len() implies K::before(k, #[trigger] self.items()[i].0) by {
            assert(K::before(k, self.key_at(i + 1)));
        }
    }

    /// A number of levels: one, and one more for each coin that falls right.
    fn random_level(&mut self) -> (r: usize)
        ensures
            1 <= r <= MAX_LEVEL,
            r == 1 + tosses(old(self).rng.state(), (MAX_LEVEL - 1) as nat).0,
            final(self).rng.state() == tosses(old(self).rng.state(), (MAX_LEVEL - 1) as nat).1,
            final(self).arena == old(self).arena,
            final(self).nexts == old(self).nexts,
            final(self).free == old(self).free,
            final(self).tail == old(self).tail,
            final(self).height == old(self).height,
            final(self).config == old(self).config,
            final(self).order == old(self).order,
    {
        let mut level: usize = 1;
        let mut flips: usize = MAX_LEVEL - 1;
        while flips > 0
            invariant
                level == MAX_LEVEL - flips,
                flips < MAX_LEVEL,
                tosses(old(self).rng.state(), (MAX_LEVEL - 1) as nat) == ({
                    let t = tosses(self.rng.state(), flips as nat);
                    (t.0 + level - 1, t.1)
                }),
                self.arena == old(self).arena,
                self.nexts == old(self).nexts,
                self.free == old(self).free,
                self.tail == old(self).tail,
                self.height == old(self).height,
                self.config == old(self).config,
                self.order == old(self).order,
            decreases flips,
        {
            if self.rng.fast_rand() & 1 != 0 {
                return level;
            }
            level = level + 1;
            flips = flips - 1;
        }
        level
    }

    /// Takes a node for an entry: a free one, or a new one. `None` where all are taken.
    fn alloc_node(&mut self, key: K, value: V, level: usize) -> (r: Option<usize>)
        requires
            old(self).wf(),
            1 <= level <= MAX_LEVEL,
        ensures
            final(self).node_count() == (if r is Some {
                peak(old(self).node_count(), old(self).items().len() as int + 1)
            } else {
                old(self).node_count()
            }),
            final(self).config == old(self).config,
            final(self).order == old(self).order,
            final(self).tail == old(self).tail,
            final(self).height == old(self).height,
            match r {
                None => final(self).wf() && final(self).items() == old(self).items() && final(self).lvs() == old(
                    self,
                ).lvs() && old(self).items().len() >= limit(old(self).config),
                Some(i) => {
                    &&& old(self).items().len() < limit(old(self).config)
                    &&& i < final(self).arena@.len() <= limit(old(self).config)
                    &&& final(self).arena@[i as int].key == key
                    &&& final(self).arena@[i as int].value == Some(value)
                    &&& final(self).arena@[i as int].level == level
                    &&& old(self).arena@.len() <= final(self).arena@.len()
                    &&& forall|n: int|
                        0 <= n < old(self).arena@.len() && n != i ==> #[trigger] final(self).arena@[n] == old(
                            self,
                        ).arena@[n]
                    &&& forall|p: int| 0 <= p < old(self).order@.len() ==> #[trigger] old(self).order@[p] != i + 1
                    &&& final(self).nexts@.len() == (final(self).arena@.len() + 1) * MAX_LEVEL
                    &&& old(self).nexts@.len() <= final(self).nexts@.len()
                    &&& forall|n: int|
                        0 <= n < old(self).nexts@.len() ==> #[trigger] final(self).nexts@[n] == old(self).nexts@[n]
                    &&& final(self).arena@.len() == final(self).order@.len() + final(self).free@.len()
                    &&& forall|n: int|
                        0 <= n < final(self).free@.len() ==> #[trigger] final(self).free@[n] == old(self).free@[n]
                            && final(self).free@[n] != i
                    &&& final(self).free@.len() <= old(self).free@.len()
                },
            },
    {
        let ghost order = self.order@;
        let node: Node<K, V> = Node { key, value: Some(value), prev: 0, level };
        match self.free.pop() {
            Some(i) => {
                proof {
                    assert(i == old(self).free@.last());
                    assert forall|p: int| 0 <= p < order.len() implies #[trigger] order[p] != i + 1 by {
                        assert(old(self).free@[old(self).free@.len() - 1] + 1 != order[p]);
                    }
                }
                self.arena.set(i, node);
                Some(i)
            },
            None => {
                let most: usize = match self.config.capacity {
                    SkipListCapacity::Unbounded => MAX_NODES,
                    SkipListCapacity::Bounded { max_entries } => if max_entries < MAX_NODES {
                        max_entries
                    } else {
                        MAX_NODES
                    },
                };
                if self.arena.len() >= most {
                    assert(self.free@ =~= old(self).free@);
                    assert(self.lvs() =~= old(self).lvs());
                    assert(self.items() =~= old(self).items());
                    proof {
                        self.lemma_same(old(self));
                    }
                    return None;
                }
                let i: usize = self.arena.len();
                self.arena.push(node);
                let n: usize = self.nexts.len();
                self.nexts.resize(n + MAX_LEVEL, 0);
                proof {
                    assert forall|m: int| 0 <= m < old(self).nexts@.len() implies #[trigger] self.nexts@[m] == old(
                        self,
                    ).nexts@[m] by {
                        assert(self.nexts@.subrange(0, n as int)[m] == self.nexts@[m]);
                    }
                    assert forall|p: int| 0 <= p < order.len() implies #[trigger] order[p] != i + 1 by {}
                }
                Some(i)
            },
        }
    }

    /// A list that differs in nothing but its coin flips is as good.
    proof fn lemma_same(&self, o: &Self)
        requires
            o.wf(),
            self.arena == o.arena,
            self.nexts == o.nexts,
            self.free@ == o.free@,
            self.tail == o.tail,
            self.height == o.height,
            self.config == o.config,
            self.order == o.order,
        ensures
            self.wf(),
            self.items() == o.items(),
    {
        assert(self.lvs() =~= o.lvs());
        assert(self.items() =~= o.items());
        assert forall|p: int, q: int| 1 <= p < q < self.order@.len() implies K::before(
            #[trigger] self.key_at(p),
            #[trigger] self.key_at(q),
        ) by {
            assert(K::before(o.key_at(p), o.key_at(q)));
        }
        assert forall|p: int| 1 <= p < self.order@.len() implies #[trigger] self.back_ok(p) by {
            assert(o.back_ok(p));
        }
    }

    /// Links row `i + 1` in before position `c`.
    fn link_in(&mut self, f: &Finger, i: usize, level: usize, Ghost(c): Ghost<int>, Ghost(lvs): Ghost<Seq<int>>)
        requires
            i < old(self).arena@.len() <= MAX_NODES,
            old(self).nexts@.len() == (old(self).arena@.len() + 1) * MAX_LEVEL,
            1 <= level <= MAX_LEVEL,
            1 <= c <= old(self).order@.len(),
            skip_model::update_ok(old(self).order@, lvs, f.update@, c),
            lvs.len() == old(self).order@.len(),
            lvs[0] == MAX_LEVEL,
            forall|p: int| 0 <= p < old(self).order@.len() ==> 0 <= #[trigger] old(self).order@[p] <= old(
                self,
            ).arena@.len() && old(self).order@[p] != i + 1,
        ensures
            final(self).arena@.len() == old(self).arena@.len(),
            final(self).nexts@.len() == old(self).nexts@.len(),
            skip_model::linked_in(
                old(self).order@,
                lvs,
                old(self).nexts@,
                final(self).nexts@,
                c,
                i + 1,
                level as int,
            ),
            final(self).arena == old(self).arena,
            final(self).free == old(self).free,
            final(self).tail == old(self).tail,
            final(self).height == old(self).height,
            final(self).config == old(self).config,
            final(self).order == old(self).order,
    {
        let ghost order = self.order@;
        let ghost before = self.nexts@;
        let row: usize = i + 1;
        let mut l: usize = 0;
        assert(self.nexts@.len() == self.nexts.len());
        while l < level
            invariant
                0 <= l <= level <= MAX_LEVEL,
                row == i + 1,
                1 <= row <= self.arena@.len() <= MAX_NODES,
                self.nexts@.len() == before.len() == (self.arena@.len() + 1) * MAX_LEVEL,
                self.nexts@.len() == self.nexts.len(),
                1 <= c <= order.len(),
                skip_model::update_ok(order, lvs, f.update@, c),
                lvs.len() == order.len(),
                lvs[0] == MAX_LEVEL,
                forall|p: int| 0 <= p < order.len() ==> 0 <= #[trigger] order[p] <= self.arena@.len() && order[p] != row,
                skip_model::linked_in(order, lvs, before, self.nexts@, c, row as int, l as int),
                self.arena == old(self).arena,
                self.free == old(self).free,
                self.tail == old(self).tail,
                self.height == old(self).height,
                self.config == old(self).config,
                self.order == old(self).order,
            decreases level - l,
        {
            let ghost cur = self.nexts@;
            let prev: usize = f.update[l];
            proof {
                skip_model::lemma_prv(lvs, l as int, c);
                let b = skip_model::prv(lvs, l as int, c);
                assert(prev == order[b]);
                assert(order[b] <= self.arena@.len());
                assert(skip_model::link(cur, prev as int, l as int) == skip_model::link(before, prev as int, l as int));
            }
            let next: usize = self.nexts[prev * MAX_LEVEL + l];
            self.nexts.set(row * MAX_LEVEL + l, next);
            self.nexts.set(prev * MAX_LEVEL + l, row);
            proof {
                let after = self.nexts@;
                assert forall|m: int| 0 <= m < l + 1 implies #[trigger] skip_model::link(after, row as int, m)
                    == skip_model::link(before, order[skip_model::prv(lvs, m, c)], m) by {
                    if m < l {
                        assert(skip_model::link(cur, row as int, m) == skip_model::link(
                            before,
                            order[skip_model::prv(lvs, m, c)],
                            m,
                        ));
                    }
                }
                assert forall|r: int, m: int|
                    0 <= m < MAX_LEVEL && r != row && r >= 0 && (r + 1) * MAX_LEVEL <= before.len() implies
                    #[trigger] skip_model::link(after, r, m) == (if m < l + 1 && r == order[skip_model::prv(lvs, m, c)] {
                    row as int
                } else {
                    skip_model::link(before, r, m)
                }) by {
                    assert(skip_model::link(cur, r, m) == (if m < l && r == order[skip_model::prv(lvs, m, c)] {
                        row as int
                    } else {
                        skip_model::link(before, r, m)
                    }));
                    if m == l && r == prev {
                    } else {
                        assert(r * MAX_LEVEL + m != prev * MAX_LEVEL + l);
                        assert(r * MAX_LEVEL + m != row * MAX_LEVEL + l);
                        assert(r * MAX_LEVEL + m < before.len());
                    }
                }
            }
            l = l + 1;
        }
    }

    /// Inserts an entry where the finger points, which stays there. Refused where all nodes
    /// are taken.
    #[verifier::rlimit(40)]
    fn insert_at(&mut self, f: &mut Finger, key: K, value: V, Ghost(c): Ghost<int>) -> (r: Result<(), StorageError>)
        requires
            old(self).wf(),
            old(self).finger_at(*old(f), c),
            old(self).split_at(c, key@),
            forall|p: int| c <= p < old(self).order@.len() ==> K::before(key@, #[trigger] old(self).key_at(p)),
        ensures
            final(self).node_count() == peak(old(self).node_count(), final(self).items().len() as int),
            final(self).wf(),
            final(self).config == old(self).config,
            final(self).finger_at(*final(f), c),
            match r {
                Ok(_) => {
                    &&& old(self).items().len() < limit(old(self).config)
                    &&& final(self).items() == old(self).items().insert(c - 1, (key@, value))
                },
                Err(e) => {
                    &&& e == StorageError::StorageFull
                    &&& old(self).items().len() >= limit(old(self).config)
                    &&& final(self).items() == old(self).items()
                },
            },
    {
        let ghost order = self.order@;
        let ghost lvs = self.lvs();
        let ghost k = key@;
        let level: usize = self.random_level();
        proof {
            self.lemma_same(old(self));
            assert(self.lvs() =~= lvs);
        }
        let ghost start = *self;
        match self.alloc_node(key, value, level) {
            None => {
                return Err(StorageError::StorageFull);
            },
            Some(i) => {
                let ghost mid = *self;
                let row: usize = i + 1;
                assert(forall|p: int| 0 <= p < order.len() ==> 0 <= #[trigger] order[p] <= start.arena@.len());
                self.link_in(f, i, level, Ghost(c), Ghost(lvs));
                let ghost o2 = order.insert(c, row as int);
                let ghost v2 = lvs.insert(c, level as int);
                proof {
                    assert forall|p: int, l: int| 0 <= p < order.len() && 0 <= l < lvs[p] implies
                        #[trigger] skip_model::link_ok(order, lvs, mid.nexts@, p, l) by {
                        assert(skip_model::link_ok(order, lvs, start.nexts@, p, l));
                        assert(1 <= lvs[p] <= MAX_LEVEL);
                        assert(0 <= order[p] <= start.arena@.len());
                        assert(order[p] * MAX_LEVEL + l < start.nexts@.len());
                        assert(mid.nexts@[order[p] * MAX_LEVEL + l] == start.nexts@[order[p] * MAX_LEVEL + l]);
                    }
                    assert(skip_model::rows_ok(order, lvs, self.arena@.len() as int));
                    skip_model::lemma_insert(
                        order,
                        lvs,
                        mid.nexts@,
                        self.nexts@,
                        self.arena@.len() as int,
                        c,
                        row as int,
                        level as int,
                    );
                }
                let prev: usize = f.update[0];
                let next: usize = f.cursor;
                proof {
                    skip_model::lemma_prv_is(lvs, 0, c, c - 1);
                    assert(f.update@[0] == order[skip_model::prv(lvs, 0, c)]);
                }
                self.arena[i].prev = prev;
                if next != 0 {
                    assert(next == order[c]);
                    assert(order[c] != row);
                    self.arena[next - 1].prev = row;
                } else {
                    self.tail = row;
                }
                if self.height < level {
                    self.height = level;
                }
                self.order = Ghost(o2);
                f.cursor = row;
                proof {
                    assert forall|p: int| c <= p < order.len() implies K::before(k, #[trigger] start.key_at(p)) by {
                        assert(K::before(k, old(self).key_at(p)));
                    }
                    assert forall|p: int| 1 <= p < c implies K::before(#[trigger] start.key_at(p), k) by {
                        assert(K::before(old(self).key_at(p), k));
                    }
                    assert forall|p: int| c <= p < order.len() implies !K::before(#[trigger] start.key_at(p), k) by {
                        assert(!K::before(old(self).key_at(p), k));
                    }
                    self.lemma_inserted(start, c, i as int, level as int, k);
                    let w2 = self.lvs();
                    assert forall|l: int| 0 <= l < MAX_LEVEL implies #[trigger] f.update@[l] == o2[skip_model::prv(w2, l, c)] by {
                        skip_model::lemma_prv_prefix(lvs, w2, l, c);
                        skip_model::lemma_prv(lvs, l, c);
                    }
                    assert(self.items() =~= old(self).items().insert(c - 1, (k, value)));
                }
                Ok(())
            },
        }
    }

    /// The list with node `i` linked in at position `c` is in order.
    #[verifier::rlimit(40)]
    proof fn lemma_inserted(&self, o: Self, c: int, i: int, level: int, k: K::V)
        requires
            o.wf(),
            1 <= c <= o.order@.len(),
            0 <= i < self.arena@.len(),
            forall|p: int| 0 <= p < o.order@.len() ==> #[trigger] o.order@[p] != i + 1,
            self.order@ == o.order@.insert(c, i + 1),
            skip_model::rows_ok(self.order@, o.lvs().insert(c, level), self.arena@.len() as int),
            skip_model::links_ok(self.order@, o.lvs().insert(c, level), self.nexts@),
            self.nexts@.len() == (self.arena@.len() + 1) * MAX_LEVEL,
            self.arena@.len() <= limit(self.config),
            o.arena@.len() <= self.arena@.len(),
            self.arena@[i].key@ == k,
            self.arena@[i].value is Some,
            self.arena@[i].level == level,
            self.arena@[i].prev == o.order@[c - 1],
            forall|n: int|
                0 <= n < o.arena@.len() && n != i ==> (#[trigger] self.arena@[n]).key == o.arena@[n].key
                    && self.arena@[n].value == o.arena@[n].value && self.arena@[n].level == o.arena@[n].level,
            forall|n: int|
                0 <= n < o.arena@.len() && n != i && !(c < o.order@.len() && n == o.order@[c] - 1) ==> (
                #[trigger] self.arena@[n]).prev == o.arena@[n].prev,
            c < o.order@.len() ==> self.arena@[o.order@[c] - 1].prev == i + 1,
            self.tail == (if c < o.order@.len() {
                o.tail as int
            } else {
                i + 1
            }),
            self.height == (if o.height < level {
                level
            } else {
                o.height as int
            }),
            o.split_at(c, k),
            forall|p: int| c <= p < o.order@.len() ==> K::before(k, #[trigger] o.key_at(p)),
            self.arena@.len() == o.order@.len() + self.free@.len(),
            forall|n: int|
                0 <= n < self.free@.len() ==> #[trigger] self.free@[n] == o.free@[n] && self.free@[n] != i,
            self.free@.len() <= o.free@.len(),
        ensures
            self.wf(),
            self.lvs() == o.lvs().insert(c, level),
            forall|p: int| 1 <= p < c ==> #[trigger] self.key_at(p) == o.key_at(p) && self.value_at(p) == o.value_at(p),
            forall|p: int|
                c < p < self.order@.len() ==> #[trigger] self.key_at(p) == o.key_at(p - 1) && self.value_at(p)
                    == o.value_at(p - 1),
            self.key_at(c) == k,
    {
        let order = o.order@;
        let o2 = self.order@;
        assert forall|p: int| 1 <= p < c implies #[trigger] self.key_at(p) == o.key_at(p) && self.value_at(p)
            == o.value_at(p) by {
            assert(o2[p] == order[p]);
            assert(order[p] != i + 1);
        }
        assert forall|p: int| c < p < o2.len() implies #[trigger] self.key_at(p) == o.key_at(p - 1) && self.value_at(p)
            == o.value_at(p - 1) by {
            assert(o2[p] == order[p - 1]);
            assert(order[p - 1] != i + 1);
        }
        assert(self.lvs() =~= o.lvs().insert(c, level)) by {
            assert forall|p: int| 0 <= p < o2.len() implies #[trigger] self.lvs()[p] == o.lvs().insert(c, level)[p] by {
                if p < c {
                    assert(o2[p] == order[p]);
                    assert(order[p] != i + 1);
                    if p > 0 {
                        assert(1 <= order[p]);
                    }
                } else if p > c {
                    assert(o2[p] == order[p - 1]);
                    assert(order[p - 1] != i + 1);
                    assert(1 <= order[p - 1]);
                }
            }
        }
        assert forall|p: int, q: int| 1 <= p < q < o2.len() implies K::before(
            #[trigger] self.key_at(p),
            #[trigger] self.key_at(q),
        ) by {
            let op = if p < c {
                p
            } else {
                p - 1
            };
            let oq = if q < c {
                q
            } else {
                q - 1
            };
            if p != c && q != c {
                assert(K::before(o.key_at(op), o.key_at(oq)));
            } else if p == c {
                assert(K::before(k, o.key_at(oq)));
            } else {
                assert(K::before(o.key_at(op), k));
            }
        }
        assert forall|p: int| 1 <= p < o2.len() implies #[trigger] self.back_ok(p) by {
            if p < c {
                assert(o.back_ok(p));
                assert(o2[p] == order[p] && o2[p - 1] == order[p - 1]);
                assert(order[p] != i + 1);
                if c < order.len() {
                    assert(order[p] != order[c]);
                }
                assert(1 <= order[p]);
            } else if p == c + 1 {
                assert(o2[p] == order[c] && o2[p - 1] == i + 1);
            } else if p > c + 1 {
                assert(o.back_ok(p - 1));
                assert(o2[p] == order[p - 1] && o2[p - 1] == order[p - 2]);
                assert(order[p - 1] != i + 1);
                assert(order[c] != order[p - 1]);
                assert(1 <= order[p - 1]);
            }
        }
        assert forall|p: int| 1 <= p < o2.len() implies #[trigger] self.lvs()[p] <= self.height by {
            if p < c {
                assert(o.lvs()[p] <= o.height);
            } else if p > c {
                assert(o.lvs()[p - 1] <= o.height);
            }
        }
        assert forall|p: int| 1 <= p < o2.len() implies self.arena@[#[trigger] o2[p] - 1].value is Some by {
            if p < c {
                assert(o2[p] == order[p]);
                assert(order[p] != i + 1);
                assert(o.arena@[order[p] - 1].value is Some);
            } else if p > c {
                assert(o2[p] == order[p - 1]);
                assert(order[p - 1] != i + 1);
                assert(o.arena@[order[p - 1] - 1].value is Some);
            }
        }
        assert forall|n: int, p: int| 0 <= n < self.free@.len() && 0 <= p < o2.len() implies #[trigger] self.free@[n] + 1
            != #[trigger] o2[p] by {
            if p < c {
                assert(o.free@[n] + 1 != order[p]);
            } else if p > c {
                assert(o.free@[n] + 1 != order[p - 1]);
            }
        }
        assert forall|n: int, m: int| 0 <= n < m < self.free@.len() implies #[trigger] self.free@[n]
            != #[trigger] self.free@[m] by {
            assert(o.free@[n] != o.free@[m]);
        }
        assert forall|n: int| 0 <= n < self.free@.len() implies #[trigger] self.free@[n] < self.arena@.len() by {
            assert(o.free@[n] < o.arena@.len());
        }
        assert(1 <= self.lvs()[c] <= MAX_LEVEL);
        if c < order.len() {
            assert(o2.last() == order.last());
        }
    }

    /// Takes position `c` out of the links.
    fn link_out(&mut self, f: &Finger, level: usize, Ghost(c): Ghost<int>)
        requires
            old(self).wf(),
            old(self).finger_at(*f, c),
            c < old(self).order@.len(),
            level == old(self).lvs()[c],
        ensures
            final(self).arena@.len() == old(self).arena@.len(),
            final(self).nexts@.len() == old(self).nexts@.len(),
            skip_model::linked_out(
                old(self).order@,
                old(self).lvs(),
                old(self).nexts@,
                final(self).nexts@,
                c,
                level as int,
            ),
            final(self).arena == old(self).arena,
            final(self).free == old(self).free,
            final(self).tail == old(self).tail,
            final(self).height == old(self).height,
            final(self).config == old(self).config,
            final(self).order == old(self).order,
    {
        let ghost order = self.order@;
        let ghost lvs = self.lvs();
        let ghost before = self.nexts@;
        let row: usize = f.cursor;
        let mut l: usize = 0;
        assert(self.nexts@.len() == self.nexts.len());
        assert(1 <= lvs[c] <= MAX_LEVEL);
        assert(1 <= order[c] <= self.arena@.len());
        while l < level
            invariant
                0 <= l <= level <= MAX_LEVEL,
                1 <= row <= self.arena@.len(),
                1 <= c < order.len(),
                row == order[c],
                self.nexts@.len() == before.len() == (self.arena@.len() + 1) * MAX_LEVEL,
                self.nexts@.len() == self.nexts.len(),
                skip_model::rows_ok(order, lvs, self.arena@.len() as int),
                skip_model::update_ok(order, lvs, f.update@, c),
                skip_model::linked_out(order, lvs, before, self.nexts@, c, l as int),
                forall|m: int| 0 <= m < MAX_LEVEL ==> #[trigger] skip_model::link(self.nexts@, row as int, m)
                    == skip_model::link(before, row as int, m),
                self.arena == old(self).arena,
                self.free == old(self).free,
                self.tail == old(self).tail,
                self.height == old(self).height,
                self.config == old(self).config,
                self.order == old(self).order,
            decreases level - l,
        {
            let ghost cur = self.nexts@;
            let prev: usize = f.update[l];
            proof {
                skip_model::lemma_prv(lvs, l as int, c);
                let b = skip_model::prv(lvs, l as int, c);
                assert(prev == order[b]);
                assert(order[b] <= self.arena@.len());
                assert(order[b] != order[c]);
            }
            let next: usize = self.nexts[row * MAX_LEVEL + l];
            self.nexts.set(prev * MAX_LEVEL + l, next);
            proof {
                let after = self.nexts@;
                assert(skip_model::link(cur, row as int, l as int) == next);
                assert forall|m: int| 0 <= m < MAX_LEVEL implies #[trigger] skip_model::link(after, row as int, m)
                    == skip_model::link(before, row as int, m) by {
                    assert(skip_model::link(cur, row as int, m) == skip_model::link(before, row as int, m));
                    assert(row * MAX_LEVEL + m != prev * MAX_LEVEL + l);
                }
                assert forall|r: int, m: int|
                    0 <= m < MAX_LEVEL && r != row && r >= 0 && (r + 1) * MAX_LEVEL <= before.len() implies
                    #[trigger] skip_model::link(after, r, m) == (if m < l + 1 && r == order[skip_model::prv(lvs, m, c)] {
                    skip_model::link(before, row as int, m)
                } else {
                    skip_model::link(before, r, m)
                }) by {
                    assert(skip_model::link(cur, r, m) == (if m < l && r == order[skip_model::prv(lvs, m, c)] {
                        skip_model::link(before, row as int, m)
                    } else {
                        skip_model::link(before, r, m)
                    }));
                    if m == l && r == prev {
                    } else {
                        assert(r * MAX_LEVEL + m != prev * MAX_LEVEL + l);
                        assert(r * MAX_LEVEL + m < before.len());
                    }
                }
            }
            l = l + 1;
        }
    }

    /// Takes the entry out that the finger points at, which then points at the one behind it.
    #[verifier::rlimit(40)]
    fn remove_at(&mut self, f: &mut Finger, Ghost(c): Ghost<int>) -> (v: V)
        requires
            old(self).wf(),
            old(self).finger_at(*old(f), c),
            c < old(self).order@.len(),
        ensures
            final(self).node_count() == old(self).node_count(),
            final(self).wf(),
            final(self).config == old(self).config,
            final(self).finger_at(*final(f), c),
            final(self).items() == old(self).items().remove(c - 1),
            v == old(self).items()[c - 1].1,
    {
        let ghost order = self.order@;
        let ghost lvs = self.lvs();
        let ghost o2 = order.remove(c);
        let ghost v2 = lvs.remove(c);
        let row: usize = f.cursor;
        assert(1 <= order[c] <= self.arena@.len());
        let i: usize = row - 1;
        let level: usize = self.arena[i].level;
        let prev: usize = self.arena[i].prev;
        assert(self.back_ok(c));
        assert(1 <= lvs[c] <= MAX_LEVEL);
        let next: usize = self.next_at(row, 0, Ghost(c));
        proof {
            if c + 1 < order.len() {
                assert(1 <= lvs[c + 1]);
            }
            skip_model::lemma_nxt_is(lvs, 0, c, c + 1);
        }
        self.link_out(f, level, Ghost(c));
        proof {
            skip_model::lemma_remove(order, lvs, old(self).nexts@, self.nexts@, self.arena@.len() as int, c);
        }
        if next != 0 {
            assert(next == order[c + 1]);
            assert(1 <= order[c + 1] <= self.arena@.len());
            self.arena[next - 1].prev = prev;
        } else {
            assert(c + 1 == order.len()) by {
                if c + 1 < order.len() {
                    assert(1 <= order[c + 1]);
                }
            }
            self.tail = prev;
        }
        let ghost mid = *self;
        while self.height > 0 && self.nexts[self.height - 1] == 0
            invariant
                self.arena == mid.arena,
                self.nexts == mid.nexts,
                self.free == mid.free,
                self.tail == mid.tail,
                self.order == mid.order,
                self.height <= MAX_LEVEL,
                self.nexts@.len() >= MAX_LEVEL,
                skip_model::rows_ok(o2, v2, self.arena@.len() as int),
                skip_model::links_ok(o2, v2, self.nexts@),
                self.config == old(self).config,
                forall|p: int| 1 <= p < o2.len() ==> #[trigger] v2[p] <= self.height,
            decreases self.height,
        {
            proof {
                let h = self.height - 1;
                assert(skip_model::link_ok(o2, v2, self.nexts@, 0, h));
                skip_model::lemma_nxt(v2, h, 0);
                let q = skip_model::nxt(v2, h, 0);
                assert(q == o2.len()) by {
                    if q < o2.len() {
                        assert(1 <= o2[q]);
                    }
                }
            }
            self.height = self.height - 1;
        }
        let taken: Option<V> = self.arena[i].value.take();
        self.free.push(i);
        self.order = Ghost(o2);
        f.cursor = next;
        proof {
            self.lemma_removed(*old(self), c);
            let w2 = self.lvs();
            assert forall|l: int| 0 <= l < MAX_LEVEL implies #[trigger] f.update@[l] == o2[skip_model::prv(w2, l, c)] by {
                skip_model::lemma_prv_prefix(lvs, w2, l, c);
                skip_model::lemma_prv(lvs, l, c);
            }
            assert(self.items() =~= old(self).items().remove(c - 1));
        }
        match taken {
            Some(v) => v,
            None => {
                assert(old(self).arena@[order[c] - 1].value is Some);
                assert(false);
                vstd::pervasive::unreached()
            },
        }
    }

    /// The list with position `c` taken out is in order.
    #[verifier::rlimit(40)]
    proof fn lemma_removed(&self, o: Self, c: int)
        requires
            o.wf(),
            1 <= c < o.order@.len(),
            self.order@ == o.order@.remove(c),
            skip_model::rows_ok(self.order@, o.lvs().remove(c), self.arena@.len() as int),
            skip_model::links_ok(self.order@, o.lvs().remove(c), self.nexts@),
            self.nexts@.len() == (self.arena@.len() + 1) * MAX_LEVEL,
            self.arena@.len() == o.arena@.len(),
            self.config == o.config,
            forall|n: int|
                0 <= n < o.arena@.len() && n != o.order@[c] - 1 ==> (#[trigger] self.arena@[n]).key == o.arena@[n].key
                    && self.arena@[n].value == o.arena@[n].value && self.arena@[n].level == o.arena@[n].level,
            forall|n: int|
                0 <= n < o.arena@.len() && n != o.order@[c] - 1 && !(c + 1 < o.order@.len() && n == o.order@[c + 1]
                    - 1) ==> (#[trigger] self.arena@[n]).prev == o.arena@[n].prev,
            c + 1 < o.order@.len() ==> self.arena@[o.order@[c + 1] - 1].prev == o.order@[c - 1],
            self.tail == (if c + 1 < o.order@.len() {
                o.tail as int
            } else {
                o.order@[c - 1]
            }),
            self.height <= MAX_LEVEL,
            forall|p: int| 1 <= p < self.order@.len() ==> #[trigger] o.lvs().remove(c)[p] <= self.height,
            self.free@ == o.free@.push((o.order@[c] - 1) as usize),
        ensures
            self.wf(),
            self.lvs() == o.lvs().remove(c),
            forall|p: int| 1 <= p < c ==> #[trigger] self.key_at(p) == o.key_at(p) && self.value_at(p) == o.value_at(p),
            forall|p: int|
                c <= p < self.order@.len() ==> #[trigger] self.key_at(p) == o.key_at(p + 1) && self.value_at(p)
                    == o.value_at(p + 1),
    {
        let order = o.order@;
        let o2 = self.order@;
        assert(1 <= order[c] <= o.arena@.len());
        assert forall|p: int| 1 <= p < c implies #[trigger] self.key_at(p) == o.key_at(p) && self.value_at(p)
            == o.value_at(p) by {
            assert(o2[p] == order[p]);
            assert(order[p] != order[c]);
        }
        assert forall|p: int| c <= p < o2.len() implies #[trigger] self.key_at(p) == o.key_at(p + 1) && self.value_at(p)
            == o.value_at(p + 1) by {
            assert(o2[p] == order[p + 1]);
            assert(order[p + 1] != order[c]);
        }
        assert(self.lvs() =~= o.lvs().remove(c)) by {
            assert forall|p: int| 0 <= p < o2.len() implies #[trigger] self.lvs()[p] == o.lvs().remove(c)[p] by {
                if p < c {
                    assert(o2[p] == order[p]);
                    assert(order[p] != order[c]);
                    if p > 0 {
                        assert(1 <= order[p]);
                    }
                } else {
                    assert(o2[p] == order[p + 1]);
                    assert(order[p + 1] != order[c]);
                    assert(1 <= order[p + 1]);
                }
            }
        }
        assert forall|p: int, q: int| 1 <= p < q < o2.len() implies K::before(
            #[trigger] self.key_at(p),
            #[trigger] self.key_at(q),
        ) by {
            let op = if p < c {
                p
            } else {
                p + 1
            };
            let oq = if q < c {
                q
            } else {
                q + 1
            };
            assert(K::before(o.key_at(op), o.key_at(oq)));
        }
        assert forall|p: int| 1 <= p < o2.len() implies #[trigger] self.back_ok(p) by {
            if p < c {
                assert(o.back_ok(p));
                assert(o2[p] == order[p] && o2[p - 1] == order[p - 1]);
                assert(order[p] != order[c]);
                if c + 1 < order.len() {
                    assert(order[p] != order[c + 1]);
                }
                assert(1 <= order[p]);
            } else if p == c {
                assert(o2[p] == order[c + 1] && o2[p - 1] == order[c - 1]);
            } else {
                assert(o.back_ok(p + 1));
                assert(o2[p] == order[p + 1] && o2[p - 1] == order[p]);
                assert(order[c] != order[p + 1]);
                assert(order[c + 1] != order[p + 1]);
                assert(1 <= order[p + 1]);
            }
        }
        assert forall|p: int| 1 <= p < o2.len() implies self.arena@[#[trigger] o2[p] - 1].value is Some by {
            if p < c {
                assert(o2[p] == order[p]);
                assert(order[p] != order[c]);
                assert(o.arena@[order[p] - 1].value is Some);
            } else {
                assert(o2[p] == order[p + 1]);
                assert(order[p + 1] != order[c]);
                assert(o.arena@[order[p + 1] - 1].value is Some);
            }
        }
        let fl = o.free@.len() as int;
        assert forall|n: int, p: int| 0 <= n < self.free@.len() && 0 <= p < o2.len() implies #[trigger] self.free@[n] + 1
            != #[trigger] o2[p] by {
            let op = if p < c {
                p
            } else {
                p + 1
            };
            assert(o2[p] == order[op]);
            assert(order[op] != order[c]);
            if n < fl {
                assert(o.free@[n] + 1 != order[op]);
            }
        }
        assert forall|n: int, m: int| 0 <= n < m < self.free@.len() implies #[trigger] self.free@[n]
            != #[trigger] self.free@[m] by {
            if m < fl {
                assert(o.free@[n] != o.free@[m]);
            } else {
                assert(o.free@[n] + 1 != order[c]);
            }
        }
        assert forall|n: int| 0 <= n < self.free@.len() implies #[trigger] self.free@[n] < self.arena@.len() by {
            if n < fl {
                assert(o.free@[n] < o.arena@.len());
            }
        }
        if c + 1 < order.len() {
            assert(o2.last() == order.last());
        }
    }

    /// Moves the finger on to the first key that is not less than `target`.
    fn advance_finger(&self, f: &mut Finger, target: &K, Ghost(start): Ghost<int>) -> (r: Ghost<int>)
        requires
            self.wf(),
            self.finger_at(*old(f), start),
            forall|p: int| 1 <= p < start ==> K::before(#[trigger] self.key_at(p), target@),
        ensures
            self.finger_at(*final(f), r@),
            self.split_at(r@, target@),
    {
        let ghost order = self.order@;
        let ghost lvs = self.lvs();
        let ghost mut c: int = start;
        while self.row_before(f.cursor, target, Ghost(c))
            invariant
                self.wf(),
                order == self.order@,
                lvs == self.lvs(),
                self.finger_at(*f, c),
                forall|p: int| 1 <= p < c ==> K::before(#[trigger] self.key_at(p), target@),
            decreases order.len() - c,
        {
            let row: usize = f.cursor;
            assert(row == order[c]);
            assert(1 <= order[c] <= self.arena@.len());
            let level: usize = self.arena[row - 1].level;
            assert(level == lvs[c]);
            assert(1 <= lvs[c] <= MAX_LEVEL);
            let ghost up = f.update@;
            let mut l: usize = 0;
            while l < level
                invariant
                    0 <= l <= level <= MAX_LEVEL,
                    f.update@.len() == MAX_LEVEL,
                    f.cursor == row,
                    forall|m: int| 0 <= m < l ==> #[trigger] f.update@[m] == row,
                    forall|m: int| l <= m < MAX_LEVEL ==> #[trigger] f.update@[m] == up[m],
                    up.len() == MAX_LEVEL,
                decreases level - l,
            {
                f.update.set(l, row);
                l = l + 1;
            }
            proof {
                if c + 1 < order.len() {
                    assert(1 <= lvs[c + 1]);
                }
                skip_model::lemma_nxt_is(lvs, 0, c, c + 1);
                assert forall|m: int| 0 <= m < MAX_LEVEL implies #[trigger] f.update@[m] == order[skip_model::prv(
                    lvs,
                    m,
                    c + 1,
                )] by {
                    if m >= level {
                        assert(up[m] == order[skip_model::prv(lvs, m, c)]);
                    }
                }
            }
            f.cursor = self.next_at(row, 0, Ghost(c));
            proof {
                c = c + 1;
            }
        }
        proof {
            assert forall|p: int| c <= p < order.len() implies !K::before(#[trigger] self.key_at(p), target@) by {
                if K::before(self.key_at(p), target@) {
                    self.lemma_after(c, p, target@);
                }
            }
        }
        Ghost(c)
    }

    /// A finger at the first entry.
    fn finger_at_start(&self) -> (f: Finger)
        requires
            self.wf(),
        ensures
            self.finger_at(f, 1),
    {
        let ghost lvs = self.lvs();
        let mut update: Vec<usize> = Vec::new();
        update.resize(MAX_LEVEL, 0);
        proof {
            if 1 < self.order@.len() {
                assert(1 <= lvs[1]);
            }
            skip_model::lemma_nxt_is(lvs, 0, 0, 1);
            assert forall|l: int| 0 <= l < MAX_LEVEL implies #[trigger] update@[l] == self.order@[skip_model::prv(
                lvs,
                l,
                1,
            )] by {
                skip_model::lemma_prv_is(lvs, l, 1, 0);
            }
        }
        let cursor: usize = self.next_at(0, 0, Ghost(0int));
        Finger { update, cursor }
    }

    /// The value of the entry in a row.
    fn row_value(&self, row: usize, Ghost(p): Ghost<int>) -> (v: &V)
        requires
            self.wf(),
            1 <= p < self.order@.len(),
            row == self.order@[p],
        ensures
            *v == self.value_at(p),
    {
        assert(self.arena@[self.order@[p] - 1].value is Some);
        match &self.arena[row - 1].value {
            Some(v) => v,
            None => vstd::pervasive::unreached(),
        }
    }

    /// The value of `key`, or `None` where there is none.
    pub fn get(&self, key: &K) -> (r: Option<&V>)
        requires
            self.wf(),
        ensures
            match r {
                Some(v) => self@.contains_key(key@) && *v == self@[key@],
                None => !self@.contains_key(key@),
            },
    {
        let (f, c) = self.search(key);
        if self.finger_matches(&f, key, c) {
            proof {
                self.lemma_items();
                ordered::lemma_place::<K, V>(self.items(), c@ - 1);
            }
            Some(self.row_value(f.cursor, c))
        } else {
            None
        }
    }

    /// Whether `key` has a value.
    pub fn contains(&self, key: &K) -> (r: bool)
        requires
            self.wf(),
        ensures
            r == self@.contains_key(key@),
    {
        let (f, c) = self.search(key);
        self.finger_matches(&f, key, c)
    }

    /// Puts another value in the entry that the finger points at, and gives the one before.
    fn swap_at(&mut self, f: &Finger, value: V, Ghost(c): Ghost<int>) -> (v: V)
        requires
            old(self).wf(),
            old(self).finger_at(*f, c),
            c < old(self).order@.len(),
        ensures
            final(self).node_count() == old(self).node_count(),
            final(self).wf(),
            final(self).config == old(self).config,
            final(self).finger_at(*f, c),
            final(self).items() == old(self).items().update(c - 1, (old(self).items()[c - 1].0, value)),
            v == old(self).items()[c - 1].1,
    {
        let ghost order = self.order@;
        assert(1 <= order[c] <= self.arena@.len());
        assert(self.arena@[order[c] - 1].value is Some);
        let i: usize = f.cursor - 1;
        let mut held: Option<V> = Some(value);
        std::mem::swap(&mut held, &mut self.arena[i].value);
        proof {
            assert(self.lvs() =~= old(self).lvs());
            self.lemma_revalued(*old(self), c);
            assert(self.items() =~= old(self).items().update(c - 1, (old(self).items()[c - 1].0, value)));
        }
        match held {
            Some(v) => v,
            None => vstd::pervasive::unreached(),
        }
    }

    /// A list in which one value has changed is in order.
    proof fn lemma_revalued(&self, o: Self, c: int)
        requires
            o.wf(),
            1 <= c < o.order@.len(),
            self.order == o.order,
            self.nexts == o.nexts,
            self.free == o.free,
            self.tail == o.tail,
            self.height == o.height,
            self.config == o.config,
            self.arena@.len() == o.arena@.len(),
            self.arena@[o.order@[c] - 1].value is Some,
            forall|n: int|
                0 <= n < o.arena@.len() ==> (#[trigger] self.arena@[n]).key == o.arena@[n].key && self.arena@[n].level
                    == o.arena@[n].level && self.arena@[n].prev == o.arena@[n].prev,
            forall|n: int|
                0 <= n < o.arena@.len() && n != o.order@[c] - 1 ==> (#[trigger] self.arena@[n]).value
                    == o.arena@[n].value,
        ensures
            self.wf(),
            self.lvs() == o.lvs(),
            forall|p: int|
                1 <= p < self.order@.len() ==> #[trigger] self.key_at(p) == o.key_at(p) && (p != c ==> self.value_at(p)
                    == o.value_at(p)),
    {
        let order = o.order@;
        assert(self.lvs() =~= o.lvs()) by {
            assert forall|p: int| 0 <= p < order.len() implies #[trigger] self.lvs()[p] == o.lvs()[p] by {
                if p > 0 {
                    assert(1 <= order[p] <= o.arena@.len());
                }
            }
        }
        assert forall|p: int| 1 <= p < order.len() implies #[trigger] self.key_at(p) == o.key_at(p) && (p != c
            ==> self.value_at(p) == o.value_at(p)) by {
            assert(1 <= order[p] <= o.arena@.len());
            if p < c {
                assert(order[p] != order[c]);
            } else if p > c {
                assert(order[c] != order[p]);
            }
        }
        assert forall|p: int, q: int| 1 <= p < q < order.len() implies K::before(
            #[trigger] self.key_at(p),
            #[trigger] self.key_at(q),
        ) by {
            assert(K::before(o.key_at(p), o.key_at(q)));
        }
        assert forall|p: int| 1 <= p < order.len() implies #[trigger] self.back_ok(p) by {
            assert(o.back_ok(p));
            assert(1 <= order[p] <= o.arena@.len());
        }
        assert forall|p: int| 1 <= p < order.len() implies self.arena@[#[trigger] order[p] - 1].value is Some by {
            assert(o.arena@[order[p] - 1].value is Some);
            if p < c {
                assert(order[p] != order[c]);
            } else if p > c {
                assert(order[c] != order[p]);
            }
        }
    }

    /// Puts an entry where the finger points: overwrites it if it has the key, else inserts.
    /// Gives the value before.
    fn put_at(&mut self, f: &mut Finger, key: K, value: V, Ghost(c): Ghost<int>) -> (r: Result<Option<V>, StorageError>)
        requires
            old(self).wf(),
            old(self).finger_at(*old(f), c),
            old(self).split_at(c, key@),
        ensures
            final(self).node_count() == peak(old(self).node_count(), final(self)@.len() as int),
            final(self).wf(),
            final(self).config == old(self).config,
            final(self).finger_at(*final(f), c),
            forall|p: int| 1 <= p < c ==> K::before(#[trigger] final(self).key_at(p), key@),
            match r {
                Ok(prev) => {
                    &&& old(self)@.contains_key(key@) || old(self)@.len() < limit(old(self).config)
                    &&& found(old(self)@, key@, prev)
                    &&& final(self)@ == old(self)@.insert(key@, value)
                },
                Err(e) => {
                    &&& e == StorageError::StorageFull
                    &&& !old(self)@.contains_key(key@)
                    &&& old(self)@.len() >= limit(old(self).config)
                    &&& final(self)@ == old(self)@
                },
            },
    {
        proof {
            self.lemma_items();
        }
        let ghost k = key@;
        let ghost items = self.items();
        if self.finger_matches(f, &key, Ghost(c)) {
            let v: V = self.swap_at(f, value, Ghost(c));
            proof {
                assert(items[c - 1].0 == k);
                ordered::lemma_place::<K, V>(items, c - 1);
                ordered::lemma_update::<K, V>(items, c - 1, value);
                self.lemma_keys_before(items, c, k);
            }
            Ok(Some(v))
        } else {
            proof {
                self.lemma_split_items(c, k);
                ordered::lemma_insert::<K, V>(items, c - 1, k, value);
            }
            match self.insert_at(f, key, value, Ghost(c)) {
                Ok(_) => {
                    proof {
                        self.lemma_keys_before(items, c, k);
                    }
                    Ok(None)
                },
                Err(e) => {
                    proof {
                        self.lemma_keys_before(items, c, k);
                    }
                    Err(e)
                },
            }
        }
    }

    /// Where the first entries are the same, so are the keys before position `c`.
    proof fn lemma_keys_before(&self, items: Seq<(K::V, V)>, c: int, k: K::V)
        requires
            1 <= c <= items.len() + 1,
            c <= self.order@.len(),
            self.order@.len() >= 1,
            forall|i: int| 0 <= i < c - 1 ==> #[trigger] self.items()[i] == items[i],
            forall|i: int| 0 <= i < c - 1 ==> K::before(#[trigger] items[i].0, k),
        ensures
            forall|p: int| 1 <= p < c ==> K::before(#[trigger] self.key_at(p), k),
    {
        assert forall|p: int| 1 <= p < c implies K::before(#[trigger] self.key_at(p), k) by {
            assert(self.items()[p - 1] == items[p - 1]);
            assert(K::before(items[p - 1].0, k));
        }
    }

    /// Inserts or overwrites an entry.
    pub fn put(&mut self, key: K, value: V) -> (r: Result<(), StorageError>)
        requires
            old(self).wf(),
        ensures
            final(self).node_count() == peak(old(self).node_count(), final(self)@.len() as int),
            final(self).wf(),
            final(self).config_view() == old(self).config_view(),
            match r {
                Ok(_) => {
                    &&& old(self)@.contains_key(key@) || old(self)@.len() < limit(old(self).config_view())
                    &&& final(self)@ == old(self)@.insert(key@, value)
                },
                Err(e) => {
                    &&& e == StorageError::StorageFull
                    &&& !old(self)@.contains_key(key@)
                    &&& old(self)@.len() >= limit(old(self).config_view())
                    &&& final(self)@ == old(self)@
                },
            },
            // Room is refused only for a new key, and only at the configured number of entries.
            r is Err ==> old(self)@.len() >= MAX_NODES
                || (old(self).config_view().capacity matches SkipListCapacity::Bounded {
                max_entries,
            } && old(self)@.len() >= max_entries),
            r is Ok ==> (old(self).config_view().capacity matches SkipListCapacity::Bounded { max_entries }
                ==> old(self)@.contains_key(key@) || final(self)@.len() <= max_entries),
    {
        let (mut f, c) = self.search(&key);
        match self.put_at(&mut f, key, value, c) {
            Ok(_) => Ok(()),
            Err(e) => Err(e),
        }
    }

    /// Inserts an entry where the key is not there. Gives whether it did.
    pub fn put_if_absent(&mut self, key: &K, value: V) -> (r: Result<bool, StorageError>)
        requires
            old(self).wf(),
        ensures
            final(self).node_count() == peak(old(self).node_count(), final(self)@.len() as int),
            final(self).wf(),
            final(self).config_view() == old(self).config_view(),
            match r {
                Ok(true) => {
                    &&& !old(self)@.contains_key(key@)
                    &&& old(self)@.len() < limit(old(self).config_view())
                    &&& final(self)@ == old(self)@.insert(key@, value)
                },
                Ok(false) => old(self)@.contains_key(key@) && *final(self) == *old(self),
                Err(e) => {
                    &&& e == StorageError::StorageFull
                    &&& !old(self)@.contains_key(key@)
                    &&& old(self)@.len() >= limit(old(self).config_view())
                    &&& final(self)@ == old(self)@
                },
            },
    {
        let (mut f, c) = self.search(key);
        if self.finger_matches(&f, key, c) {
            proof {
                self.lemma_items();
            }
            return Ok(false);
        }
        match self.put_at(&mut f, key.duplicate(), value, c) {
            Ok(_) => Ok(true),
            Err(e) => Err(e),
        }
    }

    /// Inserts or overwrites an entry and gives the value before.
    pub fn replace(&mut self, key: &K, value: V) -> (r: Result<Option<V>, StorageError>)
        requires
            old(self).wf(),
        ensures
            final(self).node_count() == peak(old(self).node_count(), final(self)@.len() as int),
            final(self).wf(),
            final(self).config_view() == old(self).config_view(),
            match r {
                Ok(prev) => {
                    &&& old(self)@.contains_key(key@) || old(self)@.len() < limit(old(self).config_view())
                    &&& found(old(self)@, key@, prev)
                    &&& final(self)@ == old(self)@.insert(key@, value)
                },
                Err(e) => {
                    &&& e == StorageError::StorageFull
                    &&& !old(self)@.contains_key(key@)
                    &&& old(self)@.len() >= limit(old(self).config_view())
                    &&& final(self)@ == old(self)@
                },
            },
    {
        let (mut f, c) = self.search(key);
        self.put_at(&mut f, key.duplicate(), value, c)
    }

    /// Deletes an entry and gives its value.
    pub fn take(&mut self, key: &K) -> (r: Option<V>)
        requires
            old(self).wf(),
        ensures
            final(self).node_count() == old(self).node_count(),
            final(self).wf(),
            final(self).config_view() == old(self).config_view(),
            found(old(self)@, key@, r),
            final(self)@ == old(self)@.remove(key@),
            r is None ==> *final(self) == *old(self),
    {
        proof {
            self.lemma_items();
        }
        let (mut f, c) = self.search(key);
        if self.finger_matches(&f, key, c) {
            proof {
                assert(self.items()[c@ - 1].0 == key@);
                ordered::lemma_remove::<K, V>(self.items(), c@ - 1);
            }
            Some(self.remove_at(&mut f, c))
        } else {
            assert(self@.remove(key@) =~= self@);
            None
        }
    }

    /// Deletes an entry. Gives whether it was there.
    pub fn delete(&mut self, key: &K) -> (r: Result<bool, StorageError>)
        requires
            old(self).wf(),
        ensures
            final(self).node_count() == old(self).node_count(),
            final(self).wf(),
            final(self).config_view() == old(self).config_view(),
            r == Ok::<bool, StorageError>(old(self)@.contains_key(key@)),
            final(self)@ == old(self)@.remove(key@),
    {
        Ok(self.take(key).is_some())
    }

    /// Replaces the value of `key` by what `f` makes of it; `None` stands for no entry on
    /// either side. The value before is moved into `f`.
    pub fn update<F: FnOnce(Option<V>) -> Option<V>>(&mut self, key: &K, f: F) -> (r: Result<(), StorageError>)
        requires
            old(self).wf(),
            forall|cur: Option<V>| #[trigger] found(old(self)@, key@, cur) ==> call_requires(f, (cur,)),
        ensures
            final(self).node_count() == peak(old(self).node_count(), final(self)@.len() as int),
            final(self).wf(),
            final(self).config_view() == old(self).config_view(),
            exists|cur: Option<V>, out: Option<V>| #[trigger]
                call_ensures(f, (cur,), out) && found(old(self)@, key@, cur) && match out {
                    Some(v) => match r {
                        Ok(_) => (old(self)@.contains_key(key@) || old(self)@.len() < limit(old(self).config_view()))
                            && final(self)@ == old(self)@.insert(key@, v),
                        Err(e) => e == StorageError::StorageFull && !old(self)@.contains_key(key@) && old(self)@.len()
                            >= limit(old(self).config_view()) && final(self)@ == old(self)@,
                    },
                    None => r is Ok && final(self)@ == old(self)@.remove(key@),
                },
    {
        let ghost m = self@;
        proof {
            self.lemma_items();
        }
        let cur: Option<V> = self.take(key);
        let ghost seen = cur;
        let ghost left = self@;
        let out: Option<V> = f(cur);
        assert(call_ensures(f, (seen,), out));
        match out {
            Some(v) => {
                proof {
                    self.lemma_items();
                    assert(left.insert(key@, v) =~= m.insert(key@, v));
                    assert(left.dom() =~= m.dom().remove(key@));
                }
                self.put(key.duplicate(), v)
            },
            None => Ok(()),
        }
    }

    /// Puts entries one after the other, up to the first that finds no room.
    pub fn bulk_put(&mut self, items: Vec<(K, V)>) -> (r: Result<(), StorageError>)
        requires
            old(self).wf(),
        ensures
            final(self).node_count() == peak(old(self).node_count(), final(self)@.len() as int),
            final(self).wf(),
            final(self).config_view() == old(self).config_view(),
            match r {
                Ok(_) => final(self)@ == ordered::put_all(old(self)@, items@),
                Err(e) => e == StorageError::StorageFull && exists|n: int|
                    0 <= n < items@.len() && final(self)@ == ordered::put_all(old(self)@, #[trigger] items@.take(n))
                        && !final(self)@.contains_key(items@[n].0@) && final(self)@.len() >= limit(
                        old(self).config_view(),
                    ),
            },
    {
        let ghost all = items@;
        let mut left: Vec<(K, V)> = vecs::reversed(items);
        let ghost mut i: int = 0;
        proof {
            self.lemma_items();
        }
        assert(all.take(0) =~= Seq::<(K, V)>::empty());
        while left.len() > 0
            invariant
                self.node_count() == peak(old(self).node_count(), self@.len() as int),
                self.wf(),
                self.config == old(self).config,
                0 <= i <= all.len(),
                all == items@,
                left@ == all.skip(i).reverse(),
                self@ == ordered::put_all(old(self)@, all.take(i)),
            decreases left@.len(),
        {
            match left.pop() {
                Some((k, v)) => {
                    proof {
                        self.lemma_items();
                        let m = self@;
                        assert(m.insert(k@, v).dom() =~= m.dom().insert(k@));
                        assert(all.skip(i).reverse().last() == all[i]);
                        assert(all.skip(i).reverse().drop_last() =~= all.skip(i + 1).reverse());
                        assert(all.take(i + 1).drop_last() =~= all.take(i));
                    }
                    match self.put(k, v) {
                        Ok(_) => {},
                        Err(e) => {
                            return Err(e);
                        },
                    }
                },
                None => {},
            }
            proof {
                i = i + 1;
            }
        }
        assert(all.skip(i).len() == 0);
        assert(all.take(i) =~= all);
        Ok(())
    }

    /// The keys do not fall.
    pub open spec fn sorted_input(items: Seq<(K, V)>) -> bool {
        forall|i: int, j: int| 0 <= i < j < items.len() ==> !K::before(#[trigger] items[j].0@, #[trigger] items[i].0@)
    }

    /// Puts entries with keys that do not fall in one sweep, up to the first that finds no
    /// room.
    pub fn bulk_put_sorted(&mut self, items: Vec<(K, V)>) -> (r: Result<(), StorageError>)
        requires
            old(self).wf(),
            Self::sorted_input(items@),
        ensures
            final(self).node_count() == peak(old(self).node_count(), final(self)@.len() as int),
            final(self).wf(),
            final(self).config_view() == old(self).config_view(),
            match r {
                Ok(_) => final(self)@ == ordered::put_all(old(self)@, items@),
                Err(e) => e == StorageError::StorageFull && exists|n: int|
                    0 <= n < items@.len() && final(self)@ == ordered::put_all(old(self)@, #[trigger] items@.take(n))
                        && !final(self)@.contains_key(items@[n].0@) && final(self)@.len() >= limit(
                        old(self).config_view(),
                    ),
            },
    {
        let ghost all = items@;
        let mut left: Vec<(K, V)> = vecs::reversed(items);
        let mut f: Finger = self.finger_at_start();
        let ghost mut c: int = 1;
        let ghost mut i: int = 0;
        proof {
            self.lemma_items();
        }
        assert(all.take(0) =~= Seq::<(K, V)>::empty());
        while left.len() > 0
            invariant
                self.node_count() == peak(old(self).node_count(), self@.len() as int),
                self.wf(),
                self.config == old(self).config,
                0 <= i <= all.len(),
                all == items@,
                Self::sorted_input(all),
                left@ == all.skip(i).reverse(),
                self@ == ordered::put_all(old(self)@, all.take(i)),
                self.finger_at(f, c),
                i < all.len() ==> forall|p: int| 1 <= p < c ==> K::before(#[trigger] self.key_at(p), all[i].0@),
            decreases left@.len(),
        {
            match left.pop() {
                Some((k, v)) => {
                    proof {
                        self.lemma_items();
                        let m = self@;
                        assert(m.insert(k@, v).dom() =~= m.dom().insert(k@));
                        assert(all.skip(i).reverse().last() == all[i]);
                        assert(all.skip(i).reverse().drop_last() =~= all.skip(i + 1).reverse());
                        assert(all.take(i + 1).drop_last() =~= all.take(i));
                    }
                    let at: Ghost<int> = self.advance_finger(&mut f, &k, Ghost(c));
                    proof {
                        c = at@;
                    }
                    match self.put_at(&mut f, k, v, at) {
                        Ok(_) => {
                            proof {
                                if i + 1 < all.len() {
                                    assert(!K::before(all[i + 1].0@, all[i].0@));
                                    assert forall|p: int| 1 <= p < c implies K::before(
                                        #[trigger] self.key_at(p),
                                        all[i + 1].0@,
                                    ) by {
                                        assert(K::before(self.key_at(p), all[i].0@));
                                        K::total(all[i].0@, all[i + 1].0@);
                                        if K::before(all[i].0@, all[i + 1].0@) {
                                            K::transitive(self.key_at(p), all[i].0@, all[i + 1].0@);
                                        }
                                    }
                                }
                            }
                        },
                        Err(e) => {
                            return Err(e);
                        },
                    }
                },
                None => {},
            }
            proof {
                i = i + 1;
            }
        }
        assert(all.skip(i).len() == 0);
        assert(all.take(i) =~= all);
        Ok(())
    }

    /// Deletes entries. Gives how many were there.
    pub fn bulk_delete(&mut self, keys: &Vec<K>) -> (r: Result<usize, StorageError>)
        requires
            old(self).wf(),
        ensures
            final(self).node_count() == old(self).node_count(),
            final(self).wf(),
            final(self).config_view() == old(self).config_view(),
            final(self)@ == ordered::without(old(self)@, keys@, keys@.len() as int),
            r matches Ok(n) && n == old(self)@.len() - final(self)@.len(),
    {
        let mut n: usize = 0;
        let mut i: usize = 0;
        proof {
            self.lemma_items();
            assert(ordered::without(self@, keys@, 0) =~= self@);
        }
        while i < keys.len()
            invariant
                self.node_count() == old(self).node_count(),
                0 <= i <= keys@.len(),
                n <= i,
                self.wf(),
                self.config == old(self).config,
                self@ == ordered::without(old(self)@, keys@, i as int),
                self@.dom().finite(),
                n == old(self)@.len() - self@.len(),
            decreases keys@.len() - i,
        {
            let ghost before = self@;
            let gone: Option<V> = self.take(&keys[i]);
            proof {
                ordered::lemma_without(old(self)@, keys@, i as int);
                assert(before.remove(keys@[i as int]@).dom() =~= before.dom().remove(keys@[i as int]@));
            }
            if gone.is_some() {
                n = n + 1;
            }
            i = i + 1;
        }
        Ok(n)
    }

    /// Deletes entries with keys that do not fall in one sweep. Gives how many were there.
    pub fn bulk_delete_sorted(&mut self, keys: &Vec<K>) -> (r: Result<usize, StorageError>)
        requires
            old(self).wf(),
            forall|i: int, j: int| 0 <= i < j < keys@.len() ==> !K::before((#[trigger] keys@[j])@, (#[trigger] keys@[i])@),
        ensures
            final(self).node_count() == old(self).node_count(),
            final(self).wf(),
            final(self).config_view() == old(self).config_view(),
            final(self)@ == ordered::without(old(self)@, keys@, keys@.len() as int),
            r matches Ok(n) && n == old(self)@.len() - final(self)@.len(),
    {
        let mut n: usize = 0;
        let mut i: usize = 0;
        let mut f: Finger = self.finger_at_start();
        let ghost mut c: int = 1;
        proof {
            self.lemma_items();
            assert(ordered::without(self@, keys@, 0) =~= self@);
        }
        while i < keys.len()
            invariant
                self.node_count() == old(self).node_count(),
                0 <= i <= keys@.len(),
                n <= i,
                self.wf(),
                self.config == old(self).config,
                self@ == ordered::without(old(self)@, keys@, i as int),
                self@.dom().finite(),
                n == old(self)@.len() - self@.len(),
                self.finger_at(f, c),
                i < keys@.len() ==> forall|p: int| 1 <= p < c ==> K::before(
                    #[trigger] self.key_at(p),
                    keys@[i as int]@,
                ),
                forall|a: int, b: int| 0 <= a < b < keys@.len() ==> !K::before((#[trigger] keys@[b])@, (
                #[trigger] keys@[a])@),
            decreases keys@.len() - i,
        {
            let ghost before = self@;
            let ghost k = keys@[i as int]@;
            let at: Ghost<int> = self.advance_finger(&mut f, &keys[i], Ghost(c));
            let ghost items = self.items();
            proof {
                c = at@;
                self.lemma_items();
                ordered::lemma_without(old(self)@, keys@, i as int);
                assert(before.remove(k).dom() =~= before.dom().remove(k));
                assert forall|j: int| 0 <= j < c - 1 implies K::before(#[trigger] items[j].0, k) by {
                    assert(K::before(self.key_at(j + 1), k));
                }
            }
            if self.finger_matches(&f, &keys[i], at) {
                proof {
                    assert(items[c - 1].0 == k);
                    ordered::lemma_remove::<K, V>(items, c - 1);
                }
                let _ = self.remove_at(&mut f, at);
                n = n + 1;
            } else {
                assert(before.remove(k) =~= before);
            }
            proof {
                self.lemma_keys_before(items, c, k);
                if i + 1 < keys@.len() {
                    let next = keys@[i + 1]@;
                    assert(!K::before(next, k));
                    assert forall|p: int| 1 <= p < c implies K::before(#[trigger] self.key_at(p), next) by {
                        assert(K::before(self.key_at(p), k));
                        K::total(k, next);
                        if K::before(k, next) {
                            K::transitive(self.key_at(p), k, next);
                        }
                    }
                }
            }
            i = i + 1;
        }
        Ok(n)
    }

    /// Drops all entries.
    pub fn clear(&mut self) -> (r: Result<(), StorageError>)
        requires
            old(self).wf(),
        ensures
            final(self).node_count() == 0,
            final(self).wf(),
            final(self).config_view() == old(self).config_view(),
            final(self)@ == Map::<K::V, V>::empty(),
            r is Ok,
    {
        self.arena.clear();
        self.free.clear();
        self.nexts.clear();
        self.nexts.resize(MAX_LEVEL, 0);
        self.tail = 0;
        self.height = 0;
        let ghost start: Seq<int> = seq![0int];
        self.order = Ghost(start);
        proof {
            assert forall|p: int, l: int| 0 <= p < start.len() && 0 <= l < self.lvs()[p] implies #[trigger] skip_model::link_ok(
                start,
                self.lvs(),
                self.nexts@,
                p,
                l,
            ) by {
                assert(skip_model::nxt(self.lvs(), l, 0) == 1);
                assert(self.nexts@[l] == 0);
            }
            assert(self.items() =~= Seq::empty());
            assert(self@ =~= Map::<K::V, V>::empty());
        }
        Ok(())
    }

    /// The entries from a position on, up to the first key that is not before `end`.
    fn forward(&self, from: usize, end: Option<&K>, Ghost(c): Ghost<int>) -> (r: (Vec<(&K, &V)>, Ghost<int>))
        requires
            self.wf(),
            1 <= c <= self.order@.len(),
            from == skip_model::row_at(self.order@, c),
        ensures
            c <= r.1@ <= self.order@.len(),
            shows(r.0@, self.items().subrange(c - 1, r.1@ - 1)),
            end is None ==> r.1@ == self.order@.len(),
            end matches Some(e) ==> forall|p: int|
                c <= p < r.1@ ==> K::before(#[trigger] self.key_at(p), e@),
            end matches Some(e) ==> forall|p: int|
                r.1@ <= p < self.order@.len() ==> !K::before(#[trigger] self.key_at(p), e@),
    {
        let ghost order = self.order@;
        let ghost lvs = self.lvs();
        let mut out: Vec<(&K, &V)> = Vec::new();
        let mut row: usize = from;
        let ghost mut p: int = c;
        while row != 0
            invariant
                self.wf(),
                order == self.order@,
                lvs == self.lvs(),
                1 <= c <= p <= order.len(),
                row == skip_model::row_at(order, p),
                shows(out@, self.items().subrange(c - 1, p - 1)),
                end matches Some(e) ==> forall|q: int| c <= q < p ==> K::before(#[trigger] self.key_at(q), e@),
            decreases order.len() - p,
        {
            assert(1 <= order[p] <= self.arena@.len());
            let node: &Node<K, V> = &self.arena[row - 1];
            let stop: bool = match end {
                Some(e) => !self.row_before(row, e, Ghost(p)),
                None => false,
            };
            if stop {
                proof {
                    let e = end->0;
                    assert forall|q: int| p <= q < order.len() implies !K::before(#[trigger] self.key_at(q), e@) by {
                        if K::before(self.key_at(q), e@) {
                            self.lemma_after(p, q, e@);
                        }
                    }
                }
                return (out, Ghost(p));
            }
            out.push((&node.key, self.row_value(row, Ghost(p))));
            proof {
                if p + 1 < order.len() {
                    assert(1 <= lvs[p + 1]);
                }
                assert(1 <= lvs[p]);
                skip_model::lemma_nxt_is(lvs, 0, p, p + 1);
                assert(self.items().subrange(c - 1, p) =~= self.items().subrange(c - 1, p - 1).push(
                    self.items()[p - 1],
                ));
            }
            row = self.next_at(row, 0, Ghost(p));
            proof {
                p = p + 1;
            }
        }
        proof {
            if p < order.len() {
                assert(1 <= order[p]);
            }
        }
        (out, Ghost(p))
    }

    /// The entries before position `c`, backwards down to the first key before `start`.
    fn backward(&self, from: usize, start: Option<&K>, Ghost(c): Ghost<int>) -> (r: (Vec<(&K, &V)>, Ghost<int>))
        requires
            self.wf(),
            1 <= c <= self.order@.len(),
            from == self.order@[c - 1],
        ensures
            1 <= r.1@ <= c,
            shows(r.0@, self.items().subrange(r.1@ - 1, c - 1).reverse()),
            start is None ==> r.1@ == 1,
            start matches Some(s) ==> forall|p: int|
                r.1@ <= p < c ==> !K::before(#[trigger] self.key_at(p), s@),
            start matches Some(s) ==> forall|p: int|
                1 <= p < r.1@ ==> K::before(#[trigger] self.key_at(p), s@),
    {
        let ghost order = self.order@;
        let mut out: Vec<(&K, &V)> = Vec::new();
        let mut row: usize = from;
        let ghost mut p: int = c - 1;
        while row != 0
            invariant
                self.wf(),
                order == self.order@,
                c <= order.len(),
                0 <= p < c,
                row == order[p],
                shows(out@, self.items().subrange(p, c - 1).reverse()),
                start matches Some(s) ==> forall|q: int| p < q < c ==> !K::before(#[trigger] self.key_at(q), s@),
            decreases p,
        {
            assert(1 <= order[p] <= self.arena@.len());
            let node: &Node<K, V> = &self.arena[row - 1];
            let stop: bool = match start {
                Some(s) => self.row_before(row, s, Ghost(p)),
                None => false,
            };
            if stop {
                proof {
                    let s = start->0;
                    assert forall|q: int| 1 <= q < p + 1 implies K::before(#[trigger] self.key_at(q), s@) by {
                        self.lemma_after(q, p, s@);
                    }
                }
                return (out, Ghost(p + 1));
            }
            out.push((&node.key, self.row_value(row, Ghost(p))));
            proof {
                assert(self.back_ok(p));
                let b = self.items().subrange(p - 1, c - 1);
                assert(b =~= seq![self.items()[p - 1]] + self.items().subrange(p, c - 1));
                assert(b.reverse() =~= self.items().subrange(p, c - 1).reverse().push(self.items()[p - 1]));
            }
            row = node.prev;
            proof {
                p = p - 1;
            }
        }
        proof {
            if p > 0 {
                assert(1 <= order[p]);
            }
        }
        (out, Ghost(1int))
    }

    /// The entries in key order.
    pub fn entries(&self) -> (r: Vec<(&K, &V)>)
        requires
            self.wf(),
        ensures
            shows(r@, self.items()),
            ordered::rising::<K, V>(self.items()),
    {
        proof {
            self.lemma_items();
            if 1 < self.order@.len() {
                assert(1 <= self.lvs()[1]);
            }
            skip_model::lemma_nxt_is(self.lvs(), 0, 0, 1);
        }
        let first: usize = self.next_at(0, 0, Ghost(0int));
        let (r, at) = self.forward(first, None, Ghost(1int));
        assert(self.items().subrange(0, at@ - 1) =~= self.items());
        r
    }

    /// The keys in order.
    pub fn keys(&self) -> (r: Vec<&K>)
        requires
            self.wf(),
        ensures
            r@.len() == self.items().len(),
            forall|i: int| 0 <= i < r@.len() ==> (#[trigger] r@[i])@ == self.items()[i].0,
            ordered::rising::<K, V>(self.items()),
    {
        let all: Vec<(&K, &V)> = self.entries();
        let mut r: Vec<&K> = Vec::with_capacity(all.len());
        let mut i: usize = 0;
        while i < all.len()
            invariant
                0 <= i <= all@.len(),
                r@.len() == i,
                shows(all@, self.items()),
                forall|j: int| 0 <= j < i ==> (#[trigger] r@[j])@ == self.items()[j].0,
            decreases all@.len() - i,
        {
            assert(all@[i as int].0@ == self.items()[i as int].0);
            r.push(all[i].0);
            i = i + 1;
        }
        r
    }

    /// The values in the order of their keys.
    pub fn values(&self) -> (r: Vec<&V>)
        requires
            self.wf(),
        ensures
            r@.len() == self.items().len(),
            forall|i: int| 0 <= i < r@.len() ==> *(#[trigger] r@[i]) == self.items()[i].1,
            ordered::rising::<K, V>(self.items()),
    {
        let all: Vec<(&K, &V)> = self.entries();
        let mut r: Vec<&V> = Vec::with_capacity(all.len());
        let mut i: usize = 0;
        while i < all.len()
            invariant
                0 <= i <= all@.len(),
                r@.len() == i,
                shows(all@, self.items()),
                forall|j: int| 0 <= j < i ==> *(#[trigger] r@[j]) == self.items()[j].1,
            decreases all@.len() - i,
        {
            assert(*all@[i as int].1 == self.items()[i as int].1);
            r.push(all[i].1);
            i = i + 1;
        }
        r
    }

    /// The entries in falling key order.
    pub fn entries_rev(&self) -> (r: Vec<(&K, &V)>)
        requires
            self.wf(),
        ensures
            shows(r@, self.items().reverse()),
            ordered::rising::<K, V>(self.items()),
    {
        proof {
            self.lemma_items();
        }
        let (r, at) = self.backward(self.tail, None, Ghost(self.order@.len() as int));
        assert(self.items().subrange(0, self.order@.len() - 1) =~= self.items());
        r
    }

    /// The entries with keys from `start` on and before `end`, in key order.
    pub fn range(&self, start: &K, end: &K) -> (r: Vec<(&K, &V)>)
        requires
            self.wf(),
        ensures
            shows(r@, ordered::within::<K, V>(self.items(), start@, end@)),
            ordered::rising::<K, V>(self.items()),
    {
        let (f, c) = self.search(start);
        let (r, at) = self.forward(f.cursor, Some(end), c);
        proof {
            self.lemma_items();
            self.lemma_range(start@, end@, c@, at@);
        }
        r
    }

    /// The entries with keys from `start` on and before `end`, in falling key order.
    pub fn range_rev(&self, start: &K, end: &K) -> (r: Vec<(&K, &V)>)
        requires
            self.wf(),
        ensures
            shows(r@, ordered::within::<K, V>(self.items(), start@, end@).reverse()),
            ordered::rising::<K, V>(self.items()),
    {
        let (f, c) = self.search(end);
        proof {
            skip_model::lemma_prv_is(self.lvs(), 0, c@, c@ - 1);
            assert(f.update@[0] == self.order@[skip_model::prv(self.lvs(), 0, c@)]);
        }
        let last: usize = f.update[0];
        let (r, at) = self.backward(last, Some(start), c);
        proof {
            self.lemma_items();
            self.lemma_range(start@, end@, at@, c@);
        }
        r
    }

    /// A range of keys stands together.
    proof fn lemma_range(&self, start: K::V, end: K::V, lo: int, hi: int)
        requires
            self.wf(),
            1 <= lo <= hi <= self.order@.len(),
            forall|p: int| 1 <= p < lo ==> K::before(#[trigger] self.key_at(p), start),
            forall|p: int| lo <= p < hi ==> !K::before(#[trigger] self.key_at(p), start),
            forall|p: int| lo <= p < hi ==> K::before(#[trigger] self.key_at(p), end),
            forall|p: int| hi <= p < self.order@.len() ==> !K::before(#[trigger] self.key_at(p), end),
        ensures
            ordered::within::<K, V>(self.items(), start, end) == self.items().subrange(lo - 1, hi - 1),
    {
        let items = self.items();
        assert forall|i: int| 0 <= i < lo - 1 implies K::before(#[trigger] items[i].0, start) by {
            assert(K::before(self.key_at(i + 1), start));
        }
        assert forall|i: int| lo - 1 <= i < hi - 1 implies !K::before(#[trigger] items[i].0, start) && K::before(
            items[i].0,
            end,
        ) by {
            assert(K::before(self.key_at(i + 1), end));
            assert(!K::before(self.key_at(i + 1), start));
        }
        assert forall|i: int| hi - 1 <= i < items.len() implies !K::before(#[trigger] items[i].0, end) by {
            assert(!K::before(self.key_at(i + 1), end));
        }
        ordered::lemma_within::<K, V>(items, start, end, lo - 1, hi - 1);
    }

    /// The entry with the least key.
    pub fn first(&self) -> (r: Option<(&K, &V)>)
        requires
            self.wf(),
        ensures
            match r {
                Some((k, v)) => self.items().len() > 0 && k@ == self.items()[0].0 && *v == self.items()[0].1,
                None => self.items().len() == 0,
            },
            ordered::rising::<K, V>(self.items()),
    {
        proof {
            self.lemma_items();
            if 1 < self.order@.len() {
                assert(1 <= self.lvs()[1]);
                assert(1 <= self.order@[1]);
            }
            skip_model::lemma_nxt_is(self.lvs(), 0, 0, 1);
        }
        let row: usize = self.next_at(0, 0, Ghost(0int));
        if row == 0 {
            return None;
        }
        Some((&self.arena[row - 1].key, self.row_value(row, Ghost(1int))))
    }

    /// The entry with the greatest key.
    pub fn last(&self) -> (r: Option<(&K, &V)>)
        requires
            self.wf(),
        ensures
            match r {
                Some((k, v)) => self.items().len() > 0 && k@ == self.items().last().0 && *v == self.items().last().1,
                None => self.items().len() == 0,
            },
            ordered::rising::<K, V>(self.items()),
    {
        let ghost p = self.order@.len() - 1;
        proof {
            self.lemma_items();
            if p >= 1 {
                assert(1 <= self.order@[p]);
            }
        }
        if self.tail == 0 {
            return None;
        }
        Some((&self.arena[self.tail - 1].key, self.row_value(self.tail, Ghost(p))))
    }

    /// How many nodes there is space for: in the arena, and in the list of free ones. There is
    /// space for all that there are; how much more is up to the allocator.
    pub fn slots(&self) -> (r: (usize, usize))
        requires
            self.wf(),
        ensures
            r.0 >= self.node_count(),
            r.1 >= self.node_count() - self@.len(),
    {
        proof {
            self.lemma_items();
        }
        (vecs::capacity_of(&self.arena), vecs::capacity_of(&self.free))
    }

    /// How many nodes there are, in use or free.
    pub fn nodes(&self) -> (r: usize)
        requires
            self.wf(),
        ensures
            r == self.node_count(),
            self@.len() <= r <= limit(self.config_view()),
    {
        proof {
            self.lemma_items();
        }
        self.arena.len()
    }

    /// The number of entries.
    pub fn size(&self) -> (r: usize)
        requires
            self.wf(),
        ensures
            r == self@.len(),
    {
        proof {
            self.lemma_items();
        }
        self.arena.len() - self.free.len()
    }

    pub fn is_empty(&self) -> (r: bool)
        requires
            self.wf(),
        ensures
            r == (self@.len() == 0),
    {
        self.size() == 0
    }

    pub fn stats(&self) -> (r: SkipListStats)
        requires
            self.wf(),
        ensures
            r.entries == self@.len(),
    {
        SkipListStats { entries: self.size() }
    }

    pub fn config(&self) -> (r: SkipListConfig)
        ensures
            r == self.config_view(),
    {
        self.config
    }
}

/// References to entries.
pub open spec fn shows<K: Key, V>(r: Seq<(&K, &V)>, items: Seq<(K::V, V)>) -> bool {
    &&& r.len() == items.len()
    &&& forall|i: int| 0 <= i < r.len() ==> (#[trigger] r[i]).0@ == items[i].0 && *r[i].1 == items[i].1
}

} // verus!
