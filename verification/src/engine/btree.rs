//! A B+ tree over 4096-byte slotted pages, with suffix truncation of separators and
//! contiguous runs of pages for large values.
//!
//! Page 0 is the meta page: `[magic u32][root u64][free head u64][pages u64][entries u64]
//! [rightmost leaf u64][leaf pages u64][leaf entry bytes u64][free pages u64]`. Keys and
//! values are byte strings and keys are ordered lexicographically.

use crate::engine::btree_model;
use crate::engine::btree_model::Kind;
use crate::engine::btree_model::Model;
use crate::engine::btree_model::Node;
use crate::engine::maps;
use crate::engine::page;
use crate::engine::settling;
use crate::engine::page::PAGE_SIZE;
use crate::error::StorageError;
use crate::utils::le;
use crate::utils::lex;
use crate::utils::ratio;
use crate::utils::ratio::Ratio;
use vstd::prelude::*;

verus! {

pub const MAGIC: u32 = 0x5450425B;

pub const META_PAGE: usize = 0;

pub const META_ROOT: usize = 4;

pub const META_FREE_HEAD: usize = 12;

pub const META_PAGES: usize = 20;

pub const META_ENTRIES: usize = 28;

pub const META_RIGHTMOST_LEAF: usize = 36;

pub const META_LEAF_PAGES: usize = 44;

pub const META_LEAF_ENTRY_BYTES: usize = 52;

pub const META_FREE_PAGES: usize = 60;

/// Largest entry kept inside a leaf: one entry must fit an empty leaf.
pub const MAX_INLINE: usize = 4064;

/// Most pages a tree can have.
pub const MAX_PAGES: u64 = 0x8_0000_0000_0000;

pub const DEFAULT_INITIAL_CAPACITY_PAGES: u64 = 64;

/// Sizes and thresholds of a tree.
#[derive(Clone, Copy, Debug, PartialEq, Eq, Structural)]
pub struct BPlusTreeConfig {
    /// Pages allocated up front; the tree never shrinks below this.
    pub initial_capacity_pages: u64,
    /// Share of reclaimable pages from which a write compacts the tree. A share of one or
    /// more disables this.
    pub compaction_ratio: Ratio,
}

/// Counters of a tree.
#[derive(Clone, Copy, Debug, PartialEq, Eq, Structural)]
pub struct BPlusTreeStats {
    pub entries: usize,
    pub pages: u64,
    pub free_pages: u64,
    /// Pages used as leaves.
    pub leaf_pages: u64,
    /// Bytes that live entries take in the leaves.
    pub leaf_entry_bytes: u64,
}

/// The fields of the meta page.
pub struct Meta {
    pub root: u64,
    pub free_head: u64,
    pub pages: u64,
    pub entries: u64,
    pub rightmost: u64,
    pub leaf_pages: u64,
    pub leaf_bytes: u64,
    pub free_pages: u64,
}

pub open spec fn meta_of(b: Seq<u8>) -> Meta {
    Meta {
        root: le::u64_at(b, 4),
        free_head: le::u64_at(b, 12),
        pages: le::u64_at(b, 20),
        entries: le::u64_at(b, 28),
        rightmost: le::u64_at(b, 36),
        leaf_pages: le::u64_at(b, 44),
        leaf_bytes: le::u64_at(b, 52),
        free_pages: le::u64_at(b, 60),
    }
}

/// Every key and value of a map can be stored.
pub open spec fn map_storable(m: Map<Seq<u8>, Seq<u8>>) -> bool {
    forall|k: Seq<u8>| #[trigger]
        m.contains_key(k) ==> k.len() <= btree_model::MAX_KEY && m[k].len() < page::OVFL_FLAG
}

/// Writing one field of the meta page leaves the others.
proof fn lemma_meta_write(b: Seq<u8>, o: int, v: u64)
    requires
        b.len() == PAGE_SIZE,
        o == 4 || o == 12 || o == 20 || o == 28 || o == 36 || o == 44 || o == 52 || o == 60,
    ensures
        ({
            let c = le::splice(b, o, le::le8(v));
            &&& le::u32_at(c, 0) == le::u32_at(b, 0)
            &&& c.len() == b.len()
            &&& o == 4 ==> meta_of(c) == (Meta { root: v, ..meta_of(b) })
            &&& o == 12 ==> meta_of(c) == (Meta { free_head: v, ..meta_of(b) })
            &&& o == 20 ==> meta_of(c) == (Meta { pages: v, ..meta_of(b) })
            &&& o == 28 ==> meta_of(c) == (Meta { entries: v, ..meta_of(b) })
            &&& o == 36 ==> meta_of(c) == (Meta { rightmost: v, ..meta_of(b) })
            &&& o == 44 ==> meta_of(c) == (Meta { leaf_pages: v, ..meta_of(b) })
            &&& o == 52 ==> meta_of(c) == (Meta { leaf_bytes: v, ..meta_of(b) })
            &&& o == 60 ==> meta_of(c) == (Meta { free_pages: v, ..meta_of(b) })
        }),
{
    let c = le::splice(b, o, le::le8(v));
    assert forall|i: int| 0 <= i < 8 implies #[trigger] le::le8(v)[i] == c[o + i] by {}
    le::lemma_le8(c, o, v);
    le::lemma_u32_same(b, c, 0, 0);
    assert forall|x: int|
        (x == 4 || x == 12 || x == 20 || x == 28 || x == 36 || x == 44 || x == 52 || x == 60) && x
            != o implies #[trigger] le::u64_at(c, x) == le::u64_at(b, x) by {
        assert forall|i: int| 0 <= i < 8 implies #[trigger] b[x + i] == c[x + i] by {}
        le::lemma_u64_same(b, c, x, x);
    }
}

/// Depth up to which a descent needs no heap.
pub const DESCENT_PATH_INLINE: usize = 8;

/// The internal pages visited on the way down to a leaf.
pub struct DescentPath {
    inline: [u64; 8],
    len: usize,
    overflow: Vec<u64>,
}

impl DescentPath {
    pub closed spec fn view(&self) -> Seq<u64> {
        self.inline@.take(self.len as int) + self.overflow@
    }

    pub closed spec fn wf(&self) -> bool {
        &&& self.len <= DESCENT_PATH_INLINE
        &&& self.overflow@.len() > 0 ==> self.len == DESCENT_PATH_INLINE
    }

    pub fn new() -> (r: Self)
        ensures
            r.wf(),
            r@ == Seq::<u64>::empty(),
    {
        let r = DescentPath { inline: [0u64, 0, 0, 0, 0, 0, 0, 0], len: 0, overflow: Vec::new() };
        assert(r@ =~= Seq::<u64>::empty());
        r
    }

    pub fn push(&mut self, page: u64)
        requires
            old(self).wf(),
        ensures
            final(self).wf(),
            final(self)@ == old(self)@.push(page),
    {
        if self.len < DESCENT_PATH_INLINE {
            self.inline[self.len] = page;
            self.len = self.len + 1;
        } else {
            self.overflow.push(page);
        }
        assert(self@ =~= old(self)@.push(page));
    }

    fn pop(&mut self) -> (r: Option<u64>)
        requires
            old(self).wf(),
        ensures
            final(self).wf(),
            match r {
                Some(p) => old(self)@.len() > 0 && p == old(self)@.last() && final(self)@ == old(self)@.drop_last(),
                None => old(self)@.len() == 0 && final(self)@ == old(self)@,
            },
    {
        if let Some(p) = self.overflow.pop() {
            assert(self@ =~= old(self)@.drop_last());
            return Some(p);
        }
        if self.len == 0 {
            return None;
        }
        self.len = self.len - 1;
        assert(self@ =~= old(self)@.drop_last());
        Some(self.inline[self.len])
    }

    /// Gives the pages back, the last one first.
    pub fn drain_rev(self) -> (r: Vec<u64>)
        requires
            self.wf(),
        ensures
            r@ == self@.reverse(),
    {
        let ghost all = self@;
        let mut rest: DescentPath = self;
        let mut r: Vec<u64> = Vec::new();
        loop
            invariant
                rest.wf(),
                r@.len() <= all.len(),
                rest@ == all.take(all.len() - r@.len()),
                r@ == all.reverse().take(r@.len() as int),
            ensures
                r@ == all.reverse(),
            decreases rest@.len(),
        {
            match rest.pop() {
                None => {
                    assert(all.reverse().take(r@.len() as int) =~= all.reverse());
                    break;
                },
                Some(p) => {
                    proof {
                        assert(p == all[all.len() - r@.len() - 1]);
                        assert(r@.push(p) =~= all.reverse().take(r@.len() as int + 1));
                        assert(rest@ =~= all.take(all.len() - r@.len() - 1));
                    }
                    r.push(p);
                },
            }
        }
        r
    }

    /// The pages of a path after some more were pushed, one after the other.
    pub open spec fn pushed(path: Seq<u64>, pages: Seq<u64>) -> Seq<u64>
        decreases pages.len(),
    {
        if pages.len() == 0 {
            path
        } else {
            Self::pushed(path, pages.drop_last()).push(pages.last())
        }
    }

    /// The pages pushed onto an empty path, however many, come back in reverse order, each once.
    pub proof fn pushed_pages_come_back_in_reverse(pages: Seq<u64>)
        ensures
            Self::pushed(Seq::empty(), pages) == pages,
            Self::pushed(Seq::empty(), pages).reverse() == pages.reverse(),
            Self::pushed(Seq::empty(), pages).reverse().len() == pages.len(),
            forall|i: int|
                0 <= i < pages.len() ==> #[trigger] Self::pushed(Seq::empty(), pages).reverse()[i] == pages[pages.len() - 1
                    - i],
        decreases pages.len(),
    {
        if pages.len() > 0 {
            Self::pushed_pages_come_back_in_reverse(pages.drop_last());
            assert(pages.drop_last().push(pages.last()) =~= pages);
        } else {
            assert(pages =~= Seq::empty());
        }
    }

    fn depth(&self) -> (n: u128)
        requires
            self.wf(),
        ensures
            n == self@.len(),
            n <= u64::MAX + 8,
    {
        assert(self.overflow@.len() == self.overflow.len());
        self.len as u128 + self.overflow.len() as u128
    }
}

/// A page that was split, and the separator to put into its parent.
pub struct PageSplit {
    left_page: u64,
    right_page: u64,
    separator_key: Vec<u8>,
}

/// Where a key is, or would be put.
pub struct DescentHint {
    leaf_page: u64,
    path: DescentPath,
    slot: usize,
    found: bool,
}

impl DescentHint {
    spec fn ok(&self, t: &BPlusTree, key: Seq<u8>) -> bool {
        let m = t.model@;
        let p = self.leaf_page as int;
        &&& btree_model::is_leaf(m, p)
        &&& btree_model::in_range(key, btree_model::node(m, p).lo, btree_model::node(m, p).hi)
        &&& btree_model::slot_found(t.img()[p], key, self.slot as int, self.found)
        &&& self.path.wf()
        &&& btree_model::path_ok(t.img(), m, self.path@, p)
    }
}

/// A key-value store ordered by key bytes.
pub struct BPlusTree {
    pages: Vec<Vec<u8>>,
    config: BPlusTreeConfig,
    stats: BPlusTreeStats,
    model: Ghost<Model>,
}

/// As many pages as the values of entries can take.
pub open spec fn value_pages(items: Seq<(Vec<u8>, Vec<u8>)>) -> int
    decreases items.len(),
{
    if items.len() == 0 {
        0
    } else {
        value_pages(items.drop_last()) + items.last().1@.len() / PAGE_SIZE as nat + 1
    }
}

/// As many pages as a tree of these entries can have: even with one leaf for each entry it has
/// no more.
pub open spec fn most_pages(items: Seq<(Vec<u8>, Vec<u8>)>) -> int {
    value_pages(items) + 3 * items.len() + 4
}

/// A tree of these entries has no more pages than a tree can have.
pub open spec fn build_room(items: Seq<(Vec<u8>, Vec<u8>)>) -> bool {
    most_pages(items) <= MAX_PAGES
}

proof fn lemma_value_pages(items: Seq<(Vec<u8>, Vec<u8>)>, i: int)
    requires
        0 <= i < items.len(),
    ensures
        value_pages(items.take(i + 1)) == value_pages(items.take(i)) + items[i].1@.len() / PAGE_SIZE as nat + 1,
        0 <= value_pages(items.take(i)),
        value_pages(items.take(i + 1)) <= value_pages(items),
    decreases items.len() - i,
{
    assert(items.take(i + 1).drop_last() =~= items.take(i));
    lemma_value_pages_positive(items.take(i));
    if i + 1 < items.len() {
        lemma_value_pages(items, i + 1);
    } else {
        assert(items.take(i + 1) =~= items);
    }
}

proof fn lemma_value_pages_positive(items: Seq<(Vec<u8>, Vec<u8>)>)
    ensures
        0 <= value_pages(items),
    decreases items.len(),
{
    if items.len() > 0 {
        lemma_value_pages_positive(items.drop_last());
    }
}

/// The same entries take the same pages.
proof fn lemma_value_pages_same(a: Seq<(Vec<u8>, Vec<u8>)>, b: Seq<(Vec<u8>, Vec<u8>)>)
    requires
        a.len() == b.len(),
        forall|i: int| 0 <= i < a.len() ==> (#[trigger] a[i]).1@ == b[i].1@,
    ensures
        value_pages(a) == value_pages(b),
    decreases a.len(),
{
    if a.len() > 0 {
        let n = a.len() - 1;
        assert(a[n].1@ == b[n].1@);
        assert forall|i: int| 0 <= i < n implies (#[trigger] a.drop_last()[i]).1@ == b.drop_last()[i].1@ by {
            assert(a[i].1@ == b[i].1@);
        }
        lemma_value_pages_same(a.drop_last(), b.drop_last());
    }
}

impl BPlusTree {
    /// The bytes of every page.
    pub closed spec fn img(&self) -> Seq<Seq<u8>> {
        Seq::new(self.pages@.len(), |i: int| self.pages@[i]@)
    }

    pub closed spec fn tree(&self) -> Model {
        self.model@
    }

    spec fn meta(&self) -> Meta {
        meta_of(self.img()[0])
    }

    /// The pages hold the tree, and the counters that go with each page write are exact.
    spec fn base(&self, pend: Option<(int, int)>) -> bool {
        let m = self.model@;
        let mt = self.meta();
        &&& btree_model::inv(self.img(), m, pend, self.stats.pages as int)
        &&& self.stats.pages <= MAX_PAGES
        &&& le::u32_at(self.img()[0], 0) == MAGIC
        &&& mt.pages == self.stats.pages
        &&& mt.entries == self.stats.entries
        &&& mt.free_pages == self.stats.free_pages
        &&& mt.leaf_pages == self.stats.leaf_pages
        &&& mt.leaf_bytes == self.stats.leaf_entry_bytes
        &&& mt.free_head == (if m.free.len() > 0 {
            m.free[0]
        } else {
            0
        })
        &&& mt.free_pages == m.free.len()
        &&& mt.rightmost == m.leaves.last()
        &&& mt.leaf_pages == m.leaves.len()
        &&& mt.leaf_bytes == btree_model::leaf_bytes(self.img(), m.leaves)
    }

    /// A complete tree.
    pub closed spec fn wf(&self) -> bool {
        let m = self.model@;
        &&& self.base(None)
        &&& m.tops.len() == 1
        &&& self.meta().root == m.tops[0]
        &&& m.map.dom().finite()
        &&& self.stats.entries == m.map.len()
        &&& map_storable(m.map)
    }

    /// Only page `p` differs from `old`.
    spec fn only_page(&self, old: &BPlusTree, p: int) -> bool {
        &&& self.img().len() == old.img().len()
        &&& forall|q: int| 0 <= q < old.img().len() && q != p ==> #[trigger] self.img()[q] == old.img()[q]
        &&& self.config == old.config
        &&& self.stats == old.stats
        &&& self.model == old.model
    }

    fn page_bytes(&self, p: u64) -> (b: &Vec<u8>)
        requires
            p < self.img().len(),
        ensures
            b@ == self.img()[p as int],
    {
        assert(self.pages@.len() == self.pages.len());
        &self.pages[p as usize]
    }

    fn put64(&mut self, p: u64, o: usize, v: u64)
        requires
            p < old(self).img().len(),
            o + 8 <= old(self).img()[p as int].len(),
        ensures
            final(self).only_page(old(self), p as int),
            final(self).img()[p as int] == le::splice(old(self).img()[p as int], o as int, le::le8(v)),
            le::u64_at(final(self).img()[p as int], o as int) == v,
    {
        assert(self.pages@.len() == self.pages.len());
        le::wr_u64(&mut self.pages[p as usize], o, v);
    }

    fn put8(&mut self, p: u64, o: usize, v: u8)
        requires
            p < old(self).img().len(),
            o < old(self).img()[p as int].len(),
        ensures
            final(self).only_page(old(self), p as int),
            final(self).img()[p as int] == old(self).img()[p as int].update(o as int, v),
    {
        assert(self.pages@.len() == self.pages.len());
        self.pages[p as usize].set(o, v);
    }

    fn put_bytes(&mut self, p: u64, o: usize, w: &[u8])
        requires
            p < old(self).img().len(),
            o + w@.len() <= old(self).img()[p as int].len(),
        ensures
            final(self).only_page(old(self), p as int),
            final(self).img()[p as int] == le::splice(old(self).img()[p as int], o as int, w@),
    {
        assert(self.pages@.len() == self.pages.len());
        le::write_at(&mut self.pages[p as usize], o, w);
    }

    fn page_insert(&mut self, p: u64, leaf: bool, pos: usize, c: &[u8])
        requires
            p < old(self).img().len(),
            page::page_ok(leaf, old(self).img()[p as int]),
            pos <= page::page_count(old(self).img()[p as int]),
            page::cell_ok(leaf, c@),
            page::used(page::cells(leaf, old(self).img()[p as int])) + c@.len() + 2 <= page::page_room(leaf),
        ensures
            final(self).only_page(old(self), p as int),
            page::page_ok(leaf, final(self).img()[p as int]),
            page::cells(leaf, final(self).img()[p as int]) == page::cells(leaf, old(self).img()[p as int]).insert(
                pos as int,
                c@,
            ),
            page::same_header(leaf, old(self).img()[p as int], final(self).img()[p as int]),
    {
        assert(self.pages@.len() == self.pages.len());
        page::insert_cell(&mut self.pages[p as usize], leaf, pos, c);
    }

    fn page_remove(&mut self, p: u64, leaf: bool, pos: usize)
        requires
            p < old(self).img().len(),
            page::page_ok(leaf, old(self).img()[p as int]),
            pos < page::page_count(old(self).img()[p as int]),
        ensures
            final(self).only_page(old(self), p as int),
            page::page_ok(leaf, final(self).img()[p as int]),
            page::cells(leaf, final(self).img()[p as int]) == page::cells(leaf, old(self).img()[p as int]).remove(
                pos as int,
            ),
            page::same_header(leaf, old(self).img()[p as int], final(self).img()[p as int]),
    {
        assert(self.pages@.len() == self.pages.len());
        page::remove_cell(&mut self.pages[p as usize], leaf, pos);
    }

    fn page_reset(&mut self, p: u64, leaf: bool)
        requires
            p < old(self).img().len(),
            old(self).img()[p as int].len() == PAGE_SIZE,
        ensures
            final(self).only_page(old(self), p as int),
            page::page_ok(leaf, final(self).img()[p as int]),
            page::cells(leaf, final(self).img()[p as int]) == Seq::<Seq<u8>>::empty(),
            page::same_header(leaf, old(self).img()[p as int], final(self).img()[p as int]),
    {
        assert(self.pages@.len() == self.pages.len());
        page::reset_page(&mut self.pages[p as usize], leaf);
    }

    // ---- meta page --------------------------------------------------------

    fn put_meta(&mut self, o: usize, v: u64)
        requires
            old(self).img().len() > 0,
            old(self).img()[0].len() == PAGE_SIZE,
            o == 4 || o == 12 || o == 20 || o == 28 || o == 36 || o == 44 || o == 52 || o == 60,
        ensures
            final(self).only_page(old(self), 0),
            final(self).img()[0].len() == PAGE_SIZE,
            le::u32_at(final(self).img()[0], 0) == le::u32_at(old(self).img()[0], 0),
            o == 4 ==> final(self).meta() == (Meta { root: v, ..old(self).meta() }),
            o == 12 ==> final(self).meta() == (Meta { free_head: v, ..old(self).meta() }),
            o == 20 ==> final(self).meta() == (Meta { pages: v, ..old(self).meta() }),
            o == 28 ==> final(self).meta() == (Meta { entries: v, ..old(self).meta() }),
            o == 36 ==> final(self).meta() == (Meta { rightmost: v, ..old(self).meta() }),
            o == 44 ==> final(self).meta() == (Meta { leaf_pages: v, ..old(self).meta() }),
            o == 52 ==> final(self).meta() == (Meta { leaf_bytes: v, ..old(self).meta() }),
            o == 60 ==> final(self).meta() == (Meta { free_pages: v, ..old(self).meta() }),
    {
        proof {
            lemma_meta_write(self.img()[0], o as int, v);
        }
        self.put64(0, o, v);
    }

    fn get_meta(&self, o: usize) -> (v: u64)
        requires
            self.img().len() > 0,
            self.img()[0].len() == PAGE_SIZE,
            o <= 60,
        ensures
            v == le::u64_at(self.img()[0], o as int),
    {
        le::rd_u64(self.page_bytes(0).as_slice(), o)
    }

    // ---- page allocation and freelist -------------------------------------

    /// Makes room for `target` pages, at least doubling where it has to grow.
    fn ensure_capacity(&mut self, target: u64)
        requires
            target <= MAX_PAGES,
        ensures
            final(self).img().len() == (if target <= old(self).img().len() {
                old(self).img().len()
            } else if 2 * old(self).img().len() > target {
                2 * old(self).img().len()
            } else {
                target as nat
            }),
            final(self).img().len() >= target,
            final(self).img().len() >= old(self).img().len(),
            forall|q: int| 0 <= q < old(self).img().len() ==> #[trigger] final(self).img()[q] == old(self).img()[q],
            forall|q: int|
                old(self).img().len() <= q < final(self).img().len() ==> (#[trigger] final(self).img()[q]).len()
                    == PAGE_SIZE,
            final(self).config == old(self).config,
            final(self).stats == old(self).stats,
            final(self).model == old(self).model,
    {
        assert(self.pages@.len() == self.pages.len());
        let current: u64 = self.pages.len() as u64;
        if target <= current {
            return;
        }
        let doubled: u64 = current * 2;
        let new_len: u64 = if doubled > target { doubled } else { target };
        self.extend_to(new_len);
    }

    /// Adds blank pages until there are `new_len`.
    fn extend_to(&mut self, new_len: u64)
        requires
            old(self).img().len() <= new_len,
        ensures
            final(self).img().len() == new_len,
            forall|q: int| 0 <= q < old(self).img().len() ==> #[trigger] final(self).img()[q] == old(self).img()[q],
            forall|q: int|
                old(self).img().len() <= q < final(self).img().len() ==> #[trigger] final(self).img()[q] == Seq::new(
                    PAGE_SIZE as nat,
                    |i: int| 0u8,
                ),
            final(self).config == old(self).config,
            final(self).stats == old(self).stats,
            final(self).model == old(self).model,
    {
        let ghost start = *self;
        while (self.pages.len() as u64) < new_len
            invariant
                start.pages@.len() <= self.pages@.len() <= new_len,
                forall|q: int| 0 <= q < start.pages@.len() ==> #[trigger] self.pages@[q] == start.pages@[q],
                forall|q: int|
                    start.pages@.len() <= q < self.pages@.len() ==> (#[trigger] self.pages@[q])@ == Seq::new(
                        PAGE_SIZE as nat,
                        |i: int| 0u8,
                    ),
                self.config == start.config,
                self.stats == start.stats,
                self.model == start.model,
            decreases new_len - self.pages@.len(),
        {
            let mut blank: Vec<u8> = Vec::new();
            blank.resize(PAGE_SIZE, 0);
            assert(blank@ =~= Seq::new(PAGE_SIZE as nat, |i: int| 0u8));
            self.pages.push(blank);
        }
    }

    /// The page that is taken next: the head of the freelist, or else the one behind the last.
    spec fn next_page(&self) -> int {
        if self.model@.free.len() > 0 {
            self.model@.free[0]
        } else {
            self.stats.pages as int
        }
    }

    /// Takes a page from the freelist, or else the next one at the end.
    fn alloc_page(&mut self, Ghost(pend): Ghost<Option<(int, int)>>) -> (p: u64)
        requires
            old(self).base(pend),
            old(self).stats.pages < MAX_PAGES,
        ensures
            final(self).stats.free_pages <= old(self).stats.free_pages,
            final(self).base(pend),
            1 <= p < final(self).stats.pages,
            final(self).stats.pages <= old(self).stats.pages + 1,
            p == old(self).next_page(),
            if old(self).model@.free.len() > 0 {
                final(self).model@.free == old(self).model@.free.skip(1) && final(self).stats.pages
                    == old(self).stats.pages
            } else {
                final(self).model@.free == old(self).model@.free && final(self).stats.pages == old(self).stats.pages
                    + 1
            },
            final(self).stats.entries == old(self).stats.entries,
            final(self).config == old(self).config,
            final(self).meta().root == old(self).meta().root,
            !final(self).model@.kind.contains_key(p as int),
            !btree_model::is_tree(old(self).model@, p as int),
            !btree_model::is_extent(old(self).model@, p as int),
            final(self).model@.kind == old(self).model@.kind.remove(p as int),
            final(self).model@.leaves == old(self).model@.leaves,
            final(self).model@.tops == old(self).model@.tops,
            final(self).model@.map == old(self).model@.map,
            final(self).img().len() >= old(self).img().len(),
            forall|q: int|
                #[trigger] final(self).model@.kind.contains_key(q) ==> final(self).img()[q] == old(self).img()[q],
    {
        let ghost m = self.model@;
        let ghost img = self.img();
        let ghost n = self.stats.pages as int;
        let free: u64 = self.get_meta(META_FREE_HEAD);
        proof {
            reveal(btree_model::free_inv);
            if m.free.len() > 0 {
                assert(btree_model::free_ok(img, m, 0));
            }
        }
        if free != 0 {
            let next: u64 = le::rd_u64(self.page_bytes(free).as_slice(), 0);
            let left: u64 = self.stats.free_pages - 1;
            self.put_meta(META_FREE_HEAD, next);
            self.put_meta(META_FREE_PAGES, left);
            self.stats.free_pages = left;
            self.model = Ghost(Model { kind: m.kind.remove(free as int), free: m.free.skip(1), ..m });
            proof {
                let m2 = self.model@;
                let img2 = self.img();
                assert(m2.free.len() > 0 ==> m2.free[0] == m.free[1]);
                assert forall|i: int| 0 <= i < m2.free.len() implies #[trigger] btree_model::free_ok(img2, m2, i) by {
                    assert(m2.free[i] == m.free[i + 1]);
                    assert(btree_model::free_ok(img, m, i + 1));
                    assert(m.free[0] != m.free[i + 1]);
                }
                assert forall|q: int| #[trigger]
                    m2.kind.contains_key(q) && m2.kind[q] == Kind::Free implies m2.free.contains(q) by {
                    assert(m.kind.contains_key(q));
                    let i = choose|i: int| 0 <= i < m.free.len() && m.free[i] == q;
                    assert(m2.free[i - 1] == q);
                }
                assert(btree_model::free_inv(img2, m2));
                btree_model::lemma_frame(img, m, pend, n, img2, m2, n, None);
            }
            return free;
        }
        let p: u64 = self.get_meta(META_PAGES);
        self.ensure_capacity(p + 1);
        let ghost mid = self.img();
        self.put_meta(META_PAGES, p + 1);
        self.stats.pages = p + 1;
        proof {
            let img2 = self.img();
            assert(self.model@ == m);
            assert(m.free.len() == 0) by {
                if m.free.len() > 0 {
                    assert(m.kind.contains_key(m.free[0]));
                }
            }
            assert(!m.kind.contains_key(p as int));
            assert(m.kind.remove(p as int) =~= m.kind);
            assert forall|q: int| #[trigger] m.kind.contains_key(q) implies img2[q] == img[q] by {
                assert(mid[q] == img[q]);
            }
            assert forall|q: int| 0 <= q < img2.len() implies (#[trigger] img2[q]).len() == PAGE_SIZE by {
                if q != 0 {
                    assert(img2[q] == mid[q]);
                    if q < img.len() {
                        assert(mid[q] == img[q]);
                    }
                }
            }
            btree_model::lemma_free_frame(img, m, img2, m);
            btree_model::lemma_frame(img, m, pend, n, img2, m, n + 1, None);
            assert(mid[0] == img[0]);
        }
        p
    }

    /// Puts a page that is not in use at the head of the freelist.
    fn free_page(&mut self, p: u64, Ghost(pend): Ghost<Option<(int, int)>>)
        requires
            old(self).base(pend),
            1 <= p < old(self).stats.pages,
            !old(self).model@.kind.contains_key(p as int),
        ensures
            final(self).base(pend),
            final(self).stats == (BPlusTreeStats {
                free_pages: (old(self).stats.free_pages + 1) as u64,
                ..old(self).stats
            }),
            final(self).config == old(self).config,
            final(self).meta().root == old(self).meta().root,
            final(self).model@ == (Model {
                kind: old(self).model@.kind.insert(p as int, Kind::Free),
                free: seq![p as int] + old(self).model@.free,
                ..old(self).model@
            }),
            final(self).img().len() == old(self).img().len(),
            forall|q: int|
                #[trigger] old(self).model@.kind.contains_key(q) ==> final(self).img()[q] == old(self).img()[q],
    {
        let ghost m = self.model@;
        let ghost img = self.img();
        let ghost n = self.stats.pages as int;
        proof {
            reveal(btree_model::free_inv);
            assert forall|i: int| 0 <= i < m.free.len() implies 1 <= #[trigger] m.free[i] < n by {
                assert(btree_model::free_ok(img, m, i));
            }
            btree_model::lemma_distinct_bound(m.free, n);
        }
        let head: u64 = self.get_meta(META_FREE_HEAD);
        let count: u64 = self.stats.free_pages + 1;
        self.put64(p, 0, head);
        let ghost img1 = self.img();
        self.put_meta(META_FREE_HEAD, p);
        self.put_meta(META_FREE_PAGES, count);
        self.stats.free_pages = count;
        self.model = Ghost(Model { kind: m.kind.insert(p as int, Kind::Free), free: seq![p as int] + m.free, ..m });
        proof {
            let m2 = self.model@;
            let img2 = self.img();
            assert(img2[p as int] == img1[p as int]);
            assert forall|i: int| 0 <= i < m2.free.len() implies #[trigger] btree_model::free_ok(img2, m2, i) by {
                if i == 0 {
                    if m.free.len() > 0 {
                        assert(m2.free[1] == m.free[0]);
                    }
                } else {
                    assert(m2.free[i] == m.free[i - 1]);
                    assert(btree_model::free_ok(img, m, i - 1));
                    if i + 1 < m2.free.len() {
                        assert(m2.free[i + 1] == m.free[i]);
                    }
                }
            }
            assert forall|i: int, j: int| 0 <= i < j < m2.free.len() implies #[trigger] m2.free[i]
                != #[trigger] m2.free[j] by {
                assert(m2.free[j] == m.free[j - 1]);
                assert(btree_model::free_ok(img, m, j - 1));
                if i > 0 {
                    assert(m2.free[i] == m.free[i - 1]);
                    assert(m.free[i - 1] != m.free[j - 1]);
                }
            }
            assert forall|q: int| #[trigger]
                m2.kind.contains_key(q) && m2.kind[q] == Kind::Free implies m2.free.contains(q) by {
                if q == p {
                    assert(m2.free[0] == q);
                } else {
                    assert(m.kind.contains_key(q));
                    let i = choose|i: int| 0 <= i < m.free.len() && m.free[i] == q;
                    assert(m2.free[i + 1] == q);
                }
            }
            assert(btree_model::free_inv(img2, m2));
            btree_model::lemma_frame(img, m, pend, n, img2, m2, n, None);
        }
    }

    /// Looks for the first descending contiguous run of `n` pages on the freelist: the page before
    /// it (zero at the head), its lowest page and the page after it.
    fn find_free_run(&self, n: u64) -> (r: Option<(u64, u64, u64, Ghost<int>)>)
        requires
            self.base(None),
            1 <= n <= MAX_PAGES,
        ensures
            match r {
                None => btree_model::no_run(self.model@.free, n as int),
                Some((prev, last, next, at)) => btree_model::free_run(
                    self.model@.free,
                    at@,
                    n as int,
                    prev as int,
                    last as int,
                    next as int,
                ) && btree_model::first_run(self.model@.free, at@, n as int),
            },
    {
        let ghost m = self.model@;
        let ghost img = self.img();
        let ghost np = self.stats.pages as int;
        let mut prev: u64 = 0;
        let mut cur: u64 = self.get_meta(META_FREE_HEAD);
        let ghost mut ci: int = 0;
        while cur != 0
            invariant
                m == self.model@,
                img == self.img(),
                np <= MAX_PAGES,
                1 <= n <= MAX_PAGES,
                btree_model::bounds_inv(img, m, np),
                btree_model::free_inv(img, m),
                0 <= ci <= m.free.len(),
                cur == (if ci < m.free.len() {
                    m.free[ci]
                } else {
                    0
                }),
                ci == 0 ==> prev == 0,
                ci > 0 ==> prev == m.free[ci - 1],
                forall|b: int| 0 <= b < ci ==> !#[trigger] btree_model::run_at(m.free, b, n as int),
            decreases m.free.len() - ci,
        {
            proof {
                reveal(btree_model::free_inv);
                assert(btree_model::free_ok(img, m, ci));
            }
            let mut run: u64 = 1;
            let mut last: u64 = cur;
            let mut next: u64 = le::rd_u64(self.page_bytes(last).as_slice(), 0);
            while run < n && next != 0 && next == last - 1
                invariant
                    m == self.model@,
                    img == self.img(),
                    np <= MAX_PAGES,
                    btree_model::bounds_inv(img, m, np),
                    btree_model::free_inv(img, m),
                    1 <= run <= n <= MAX_PAGES,
                    0 <= ci,
                    ci + run <= m.free.len(),
                    cur == m.free[ci],
                    last == cur - (run - 1),
                    forall|j: int| 0 <= j < run ==> #[trigger] m.free[ci + j] == cur - j,
                    1 <= last < np,
                    next == (if ci + run < m.free.len() {
                        m.free[ci + run]
                    } else {
                        0
                    }),
                decreases n - run,
            {
                proof {
                    reveal(btree_model::free_inv);
                    assert(btree_model::free_ok(img, m, ci + run));
                }
                last = next;
                run = run + 1;
                next = le::rd_u64(self.page_bytes(last).as_slice(), 0);
            }
            if run == n {
                assert forall|j: int| 0 <= j < n implies #[trigger] m.free[ci + j] == m.free[ci] - j by {
                    assert(m.free[ci + 0] == cur);
                }
                return Some((prev, last, next, Ghost(ci)));
            }
            proof {
                if btree_model::run_at(m.free, ci, n as int) {
                    assert(m.free[ci + run] == m.free[ci] - run);
                    reveal(btree_model::free_inv);
                    assert(btree_model::free_ok(img, m, ci + run));
                    assert(m.kind.contains_key(m.free[ci + run]));
                    assert(false);
                }
            }
            prev = cur;
            cur = le::rd_u64(self.page_bytes(cur).as_slice(), 0);
            proof {
                ci = ci + 1;
            }
        }
        proof {
            if ci < m.free.len() {
                reveal(btree_model::free_inv);
                assert(btree_model::free_ok(img, m, ci));
                assert(m.kind.contains_key(m.free[ci]));
            }
            assert forall|b: int| !#[trigger] btree_model::run_at(m.free, b, n as int) by {}
        }
        None
    }

    /// The first run of `n` pages was taken off the freelist; `s` is its lowest page.
    spec fn took_run(&self, to: &BPlusTree, s: u64, n: u64) -> bool {
        &&& exists|at: int| #[trigger]
            btree_model::first_run(self.model@.free, at, n as int) && s == self.model@.free[at + n - 1]
                && to.model@.free == self.model@.free.take(at) + self.model@.free.skip(at + n)
        &&& n <= self.stats.free_pages
        &&& to.stats == (BPlusTreeStats { free_pages: (self.stats.free_pages - n) as u64, ..self.stats })
    }

    /// Unlinks the first descending contiguous run of `n` pages from the freelist and gives its
    /// lowest page, which `key` then owns. `None` where there is no such run.
    fn alloc_extent_from_freelist(&mut self, n: u64, Ghost(key): Ghost<Seq<u8>>) -> (r: Option<u64>)
        requires
            old(self).base(None),
            n <= MAX_PAGES,
        ensures
            final(self).stats.free_pages <= old(self).stats.free_pages,
            final(self).base(None),
            final(self).config == old(self).config,
            final(self).stats.pages == old(self).stats.pages,
            final(self).stats.entries == old(self).stats.entries,
            final(self).meta().root == old(self).meta().root,
            final(self).img().len() == old(self).img().len(),
            match r {
                None => *final(self) == *old(self) && (n == 0 || btree_model::no_run(
                    old(self).model@.free,
                    n as int,
                )),
                Some(s) => {
                    &&& n >= 1
                    &&& old(self).took_run(final(self), s, n)
                    &&& 1 <= s
                    &&& s + n <= final(self).stats.pages
                    &&& final(self).model@.kind == btree_model::with_extent(
                        old(self).model@.kind,
                        s as int,
                        n as int,
                        key,
                    )
                    &&& final(self).model@.leaves == old(self).model@.leaves
                    &&& final(self).model@.tops == old(self).model@.tops
                    &&& final(self).model@.map == old(self).model@.map
                    &&& forall|q: int| s <= q < s + n ==> !#[trigger] btree_model::is_tree(old(self).model@, q)
                        && !btree_model::is_extent(old(self).model@, q)
                    &&& forall|q: int|
                        #[trigger] old(self).model@.kind.contains_key(q) && !(old(self).model@.kind[q] is Free)
                            ==> final(self).img()[q] == old(self).img()[q]
                },
            },
    {
        if n == 0 {
            return None;
        }
        match self.find_free_run(n) {
            None => None,
            Some((prev, last, next, at)) => {
                let ghost ci = at@;
                let ghost m = self.model@;
                let ghost img = self.img();
                let ghost np = self.stats.pages as int;
                proof {
                    btree_model::lemma_run_free(img, m, ci, n as int, prev as int, last as int, next as int);
                    assert(m.kind.contains_key(last as int));
                    assert(m.kind.contains_key(last + n - 1));
                }
                if prev != 0 {
                    self.put64(prev, 0, next);
                } else {
                    self.put_meta(META_FREE_HEAD, next);
                }
                let left: u64 = self.stats.free_pages - n;
                self.put_meta(META_FREE_PAGES, left);
                self.stats.free_pages = left;
                self.model = Ghost(
                    Model {
                        kind: btree_model::with_extent(m.kind, last as int, n as int, key),
                        free: m.free.take(ci) + m.free.skip(ci + n),
                        ..m
                    },
                );
                proof {
                    let m2 = self.model@;
                    let img2 = self.img();
                    btree_model::lemma_take_run(img, m, img2, m2, ci, n as int, prev as int, last as int, next as int, key);
                    btree_model::lemma_frame(img, m, None, np, img2, m2, np, None);
                    assert(btree_model::first_run(m.free, ci, n as int));
                    assert(m.free[ci + (n - 1)] == last);
                }
                Some(last)
            },
        }
    }

    /// Takes `n` contiguous pages for the value of `key`: a run from the freelist where
    /// there is one, or else the next ones at the end.
    fn alloc_extent(&mut self, n: u64, Ghost(key): Ghost<Seq<u8>>) -> (s: u64)
        requires
            old(self).base(None),
            n >= 1,
            old(self).stats.pages + n <= MAX_PAGES,
        ensures
            old(self).took_run(final(self), s, n) || {
                &&& btree_model::no_run(old(self).model@.free, n as int)
                &&& s == old(self).stats.pages
                &&& final(self).model@.free == old(self).model@.free
                &&& final(self).stats == (BPlusTreeStats {
                    pages: (old(self).stats.pages + n) as u64,
                    ..old(self).stats
                })
            },
            final(self).stats.free_pages <= old(self).stats.free_pages,
            final(self).base(None),
            final(self).config == old(self).config,
            final(self).stats.pages <= old(self).stats.pages + n,
            final(self).stats.entries == old(self).stats.entries,
            final(self).meta().root == old(self).meta().root,
            1 <= s,
            s + n <= final(self).stats.pages,
            final(self).img().len() >= old(self).img().len(),
            final(self).model@.kind == btree_model::with_extent(old(self).model@.kind, s as int, n as int, key),
            final(self).model@.leaves == old(self).model@.leaves,
            final(self).model@.tops == old(self).model@.tops,
            final(self).model@.map == old(self).model@.map,
            final(self).keeps_pages(old(self)),
            forall|q: int| s <= q < s + n ==> !#[trigger] btree_model::is_tree(old(self).model@, q)
                && !btree_model::is_extent(old(self).model@, q),
            forall|q: int|
                #[trigger] old(self).model@.kind.contains_key(q) && !(old(self).model@.kind[q] is Free)
                    ==> final(self).img()[q] == old(self).img()[q],
    {
        let ghost m = self.model@;
        let ghost img = self.img();
        let ghost np = self.stats.pages as int;
        if let Some(s) = self.alloc_extent_from_freelist(n, Ghost(key)) {
            return s;
        }
        let start: u64 = self.get_meta(META_PAGES);
        self.ensure_capacity(start + n);
        let ghost mid = self.img();
        self.put_meta(META_PAGES, start + n);
        self.stats.pages = start + n;
        self.model = Ghost(Model { kind: btree_model::with_extent(m.kind, start as int, n as int, key), ..m });
        proof {
            let img2 = self.img();
            let m2 = self.model@;
            assert forall|q: int| #[trigger] m.kind.contains_key(q) implies img2[q] == img[q] by {
                assert(mid[q] == img[q]);
            }
            assert forall|q: int| 0 <= q < img2.len() implies (#[trigger] img2[q]).len() == PAGE_SIZE by {
                if q != 0 {
                    assert(img2[q] == mid[q]);
                    if q < img.len() {
                        assert(mid[q] == img[q]);
                    }
                }
            }
            assert(mid[0] == img[0]);
            btree_model::lemma_free_frame(img, m, img2, m2);
            btree_model::lemma_frame(img, m, None, np, img2, m2, np + n, None);
        }
        start
    }

    /// Stores a value in pages of its own, which `key` then owns.
    fn write_extent(&mut self, value: &[u8], Ghost(key): Ghost<Seq<u8>>) -> (s: u64)
        requires
            old(self).base(None),
            value@.len() >= 1,
            old(self).stats.pages + btree_model::extent_pages(value@.len() as int) <= MAX_PAGES,
            !old(self).model@.map.contains_key(key),
        ensures
            final(self).stats.free_pages <= old(self).stats.free_pages,
            final(self).base(None),
            final(self).config == old(self).config,
            final(self).stats.pages <= old(self).stats.pages + btree_model::extent_pages(value@.len() as int),
            final(self).stats.pages >= old(self).stats.pages,
            final(self).stats.entries == old(self).stats.entries,
            final(self).meta().root == old(self).meta().root,
            1 <= s,
            s + btree_model::extent_pages(value@.len() as int) <= final(self).stats.pages,
            final(self).img().len() >= old(self).img().len(),
            final(self).model@.kind == btree_model::with_extent(
                old(self).model@.kind,
                s as int,
                btree_model::extent_pages(value@.len() as int),
                key,
            ),
            final(self).model@.leaves == old(self).model@.leaves,
            final(self).model@.tops == old(self).model@.tops,
            final(self).model@.map == old(self).model@.map,
            btree_model::extent_bytes(final(self).img(), s as int, value@.len() as int) == value@,
            final(self).keeps_pages(old(self)),
            forall|q: int|
                s <= q < s + btree_model::extent_pages(value@.len() as int) ==> !#[trigger] btree_model::is_tree(
                    old(self).model@,
                    q,
                ),
            forall|q: int| #[trigger]
                btree_model::is_tree(old(self).model@, q) ==> final(self).img()[q] == old(self).img()[q],
    {
        let len: usize = value.len();
        let n: u64 = (len / PAGE_SIZE + (if len % PAGE_SIZE == 0 { 0usize } else { 1usize })) as u64;
        assert(n == btree_model::extent_pages(len as int));
        let s: u64 = self.alloc_extent(n, Ghost(key));
        let ghost m = self.model@;
        let ghost img = self.img();
        let ghost np = self.stats.pages as int;
        let ghost mid = *self;
        let mut i: u64 = 0;
        while i < n
            invariant
                0 <= i <= n,
                n == btree_model::extent_pages(len as int),
                len == value@.len(),
                len == value.len(),
                1 <= s,
                s + n <= np <= MAX_PAGES,
                np <= img.len(),
                self.img().len() == img.len(),
                forall|q: int| 0 <= q < img.len() ==> (#[trigger] self.img()[q]).len() == PAGE_SIZE,
                forall|q: int| 0 <= q < img.len() && !(s <= q < s + n) ==> #[trigger] self.img()[q] == img[q],
                forall|x: int| 0 <= x < len && x < i * PAGE_SIZE ==> #[trigger] btree_model::extent_byte(
                    self.img(),
                    s as int,
                    x,
                ) == value@[x],
                self.config == mid.config,
                self.stats == mid.stats,
                self.model == mid.model,
            decreases n - i,
        {
            let lo: usize = i as usize * PAGE_SIZE;
            let hi: usize = if len - lo < PAGE_SIZE { len } else { lo + PAGE_SIZE };
            let ghost before = self.img();
            self.put_bytes(s + i, 0, vstd::slice::slice_subrange(value, lo, hi));
            i = i + 1;
            proof {
                let w = value@.subrange(lo as int, hi as int);
                assert forall|x: int| 0 <= x < len && x < i * PAGE_SIZE implies #[trigger] btree_model::extent_byte(
                    self.img(),
                    s as int,
                    x,
                ) == value@[x] by {
                    let pg = x / PAGE_SIZE as int;
                    if x < lo {
                        assert(btree_model::extent_byte(before, s as int, x) == value@[x]);
                        assert(pg < i - 1);
                        assert(self.img()[s + pg] == before[s + pg]);
                    } else {
                        assert(pg == i - 1);
                        assert(x % PAGE_SIZE as int == x - lo);
                        assert(w[x - lo] == value@[x]);
                    }
                }
            }
        }
        proof {
            assert(btree_model::extent_bytes(self.img(), s as int, len as int) =~= value@);
            btree_model::lemma_free_frame(img, m, self.img(), m);
            btree_model::lemma_frame(img, m, None, np, self.img(), m, np, Some(key));
        }
        s
    }

    /// The pages from `lo` to `hi` hold the value of `key`.
    spec fn owned_by(m: Model, lo: int, hi: int, key: Seq<u8>) -> bool {
        forall|q: int| lo <= q < hi ==> #[trigger] m.kind.contains_key(q) && m.kind[q] == Kind::Extent(key)
    }

    /// Gives the pages of a value that `key` owned back to the freelist.
    fn free_extent(&mut self, start: u64, len: u32, Ghost(key): Ghost<Seq<u8>>)
        requires
            old(self).base(None),
            !old(self).model@.map.contains_key(key),
            forall|q: int|
                start <= q < start + btree_model::extent_pages(len as int) ==> #[trigger] old(
                    self,
                ).model@.kind.contains_key(q) && old(self).model@.kind[q] == Kind::Extent(key),
        ensures
            final(self).base(None),
            final(self).config == old(self).config,
            final(self).stats.pages == old(self).stats.pages,
            final(self).stats.entries == old(self).stats.entries,
            final(self).meta().root == old(self).meta().root,
            final(self).img().len() == old(self).img().len(),
            final(self).model@.leaves == old(self).model@.leaves,
            final(self).model@.tops == old(self).model@.tops,
            final(self).model@.map == old(self).model@.map,
            forall|q: int| #[trigger]
                btree_model::is_tree(old(self).model@, q) ==> final(self).img()[q] == old(self).img()[q]
                    && final(self).model@.kind.contains_key(q) && final(self).model@.kind[q] == old(
                    self,
                ).model@.kind[q],
            forall|q: int| #[trigger]
                btree_model::is_tree(final(self).model@, q) ==> btree_model::is_tree(old(self).model@, q),
            final(self).model@ == btree_model::freed(
                old(self).model@,
                btree_model::span(start as int, btree_model::extent_pages(len as int)),
            ),
            final(self).stats == (BPlusTreeStats {
                free_pages: final(self).model@.free.len() as u64,
                ..old(self).stats
            }),
            forall|q: int|
                #[trigger] old(self).model@.kind.contains_key(q) && !(start <= q < start + btree_model::extent_pages(
                    len as int,
                )) ==> final(self).img()[q] == old(self).img()[q],
    {
        let n: u64 = (len as usize / PAGE_SIZE + (if len as usize % PAGE_SIZE == 0 { 0usize } else { 1usize })) as u64;
        assert(n == btree_model::extent_pages(len as int));
        let ghost m0 = self.model@;
        let mut i: u64 = 0;
        assert(Self::owned_by(m0, start + i, start + n, key));
        proof {
            btree_model::lemma_freed_none(m0);
            assert(btree_model::span(start as int, 0) =~= Seq::<int>::empty());
        }
        while i < n
            invariant
                0 <= i <= n,
                self.base(None),
                !self.model@.map.contains_key(key),
                Self::owned_by(self.model@, start + i, start + n, key),
                self.config == old(self).config,
                self.stats.pages == old(self).stats.pages,
                self.stats.entries == old(self).stats.entries,
                self.meta().root == old(self).meta().root,
                self.img().len() == old(self).img().len(),
                m0 == old(self).model@,
                self.model@.leaves == m0.leaves,
                self.model@.tops == m0.tops,
                self.model@.map == m0.map,
                forall|q: int| #[trigger]
                    btree_model::is_tree(m0, q) ==> self.img()[q] == old(self).img()[q] && self.model@.kind.contains_key(
                        q,
                    ) && self.model@.kind[q] == m0.kind[q],
                forall|q: int| #[trigger] btree_model::is_tree(self.model@, q) ==> btree_model::is_tree(m0, q),
                self.model@ == btree_model::freed(m0, btree_model::span(start as int, i as int)),
                self.stats == (BPlusTreeStats { free_pages: self.model@.free.len() as u64, ..old(self).stats }),
                forall|q: int|
                    #[trigger] m0.kind.contains_key(q) && !(start <= q < start + n) ==> self.img()[q] == old(self).img()[q],
            decreases n - i,
        {
            let ghost m = self.model@;
            let ghost p = start + i;
            assert(m.kind.contains_key(p));
            self.model = Ghost(Model { kind: m.kind.remove(p), ..m });
            proof {
                btree_model::lemma_free_frame(self.img(), m, self.img(), self.model@);
                btree_model::lemma_frame(
                    self.img(),
                    m,
                    None,
                    self.stats.pages as int,
                    self.img(),
                    self.model@,
                    self.stats.pages as int,
                    Some(key),
                );
            }
            let ghost mid = *self;
            self.free_page(start + i, Ghost(None));
            proof {
                let ps = btree_model::span(start as int, i as int);
                btree_model::lemma_freed_push(m0, ps, p);
                assert(ps.push(p) =~= btree_model::span(start as int, i + 1));
                assert(m.kind.remove(p).insert(p, Kind::Free) =~= m.kind.insert(p, Kind::Free));
                assert forall|q: int|
                    #[trigger] m0.kind.contains_key(q) && !(start <= q < start + n) implies self.img()[q] == old(
                    self,
                ).img()[q] by {
                    assert(m.kind.contains_key(q));
                    assert(mid.model@.kind.contains_key(q));
                }
                assert forall|q: int| #[trigger] btree_model::is_tree(m0, q) implies self.img()[q] == old(self).img()[q]
                    && self.model@.kind.contains_key(q) && self.model@.kind[q] == m0.kind[q] by {
                    assert(m.kind.contains_key(q) && m.kind[q] == m0.kind[q]);
                    assert(mid.model@.kind.contains_key(q));
                }
                assert forall|q: int| #[trigger] btree_model::is_tree(self.model@, q) implies btree_model::is_tree(
                    m0,
                    q,
                ) by {
                    assert(btree_model::is_tree(m, q));
                }
                assert(Self::owned_by(self.model@, start + i + 1, start + n, key)) by {
                    assert forall|q: int| start + i + 1 <= q < start + n implies #[trigger] self.model@.kind.contains_key(
                        q,
                    ) && self.model@.kind[q] == Kind::Extent(key) by {
                        assert(m.kind.contains_key(q));
                    }
                }
            }
            i = i + 1;
        }
    }

    // ---- search -----------------------------------------------------------

    /// The child of an internal page to descend to for `key`.
    fn internal_search(&self, p: u64, key: &[u8]) -> (c: u64)
        requires
            self.base(None),
            btree_model::is_inner(self.model@, p as int),
            btree_model::in_range(
                key@,
                btree_model::node(self.model@, p as int).lo,
                btree_model::node(self.model@, p as int).hi,
            ),
        ensures
            btree_model::is_tree(self.model@, c as int),
            btree_model::node(self.model@, c as int).level + 1 == btree_model::node(self.model@, p as int).level,
            btree_model::node(self.model@, c as int).parent == p,
            btree_model::listed(self.img(), p as int, c as int),
            btree_model::in_range(
                key@,
                btree_model::node(self.model@, c as int).lo,
                btree_model::node(self.model@, c as int).hi,
            ),
    {
        let b: &Vec<u8> = self.page_bytes(p);
        proof {
            reveal(btree_model::inner_inv);
            assert(btree_model::inner_inv(self.img(), self.model@, None, p as int));
            page::lemma_page_cells(false, b@);
            lex::order_laws();
        }
        let (pos, found) = page::find_slot(b, false, key);
        let i: usize = if found { pos + 1 } else { pos };
        proof {
            btree_model::lemma_route(self.img(), self.model@, p as int, key@, i as int);
            assert(btree_model::kid(self.img()[p as int], i as int) == btree_model::kid_of(
                le::u64_at(b@, 8) as int,
                page::cells(false, b@),
                i as int,
            ));
        }
        if i == 0 {
            le::rd_u64(b.as_slice(), 8)
        } else {
            page::read_child(b, i - 1)
        }
    }

    /// The leaf whose range holds `key`.
    fn find_leaf(&self, key: &[u8]) -> (p: u64)
        requires
            self.wf(),
        ensures
            btree_model::is_leaf(self.model@, p as int),
            btree_model::in_range(
                key@,
                btree_model::node(self.model@, p as int).lo,
                btree_model::node(self.model@, p as int).hi,
            ),
    {
        let mut p: u64 = self.get_meta(META_ROOT);
        proof {
            reveal(btree_model::tops_inv);
            assert(btree_model::top_ok(self.model@, None, 0));
        }
        loop
            invariant
                self.wf(),
                btree_model::is_tree(self.model@, p as int),
                btree_model::in_range(
                    key@,
                    btree_model::node(self.model@, p as int).lo,
                    btree_model::node(self.model@, p as int).hi,
                ),
            decreases btree_model::node(self.model@, p as int).level,
        {
            if self.is_leaf_page(p) {
                return p;
            }
            p = self.internal_search(p, key);
        }
    }

    /// Whether a tree page is a leaf.
    fn is_leaf_page(&self, p: u64) -> (r: bool)
        requires
            self.base(None),
            btree_model::is_tree(self.model@, p as int),
        ensures
            r == btree_model::is_leaf(self.model@, p as int),
    {
        proof {
            reveal(btree_model::leaf_inv);
            reveal(btree_model::inner_inv);
            if btree_model::is_leaf(self.model@, p as int) {
                assert(btree_model::leaf_inv(self.img(), self.model@, p as int));
            } else {
                assert(btree_model::is_inner(self.model@, p as int));
                assert(btree_model::inner_inv(self.img(), self.model@, None, p as int));
            }
        }
        self.page_bytes(p)[0] == page::PAGE_LEAF
    }

    /// The slot of `key` in a leaf.
    fn leaf_find_slot(&self, p: u64, key: &[u8]) -> (r: (usize, bool))
        requires
            self.base(None),
            btree_model::is_leaf(self.model@, p as int),
        ensures
            btree_model::slot_found(self.img()[p as int], key@, r.0 as int, r.1),
    {
        proof {
            reveal(btree_model::leaf_inv);
            assert(btree_model::leaf_inv(self.img(), self.model@, p as int));
            page::lemma_page_cells(true, self.img()[p as int]);
        }
        page::find_slot(self.page_bytes(p), true, key)
    }

    /// Walks down to the leaf of `key`, noting the pages on the way and the slot.
    fn descend_to_leaf(&self, key: &[u8]) -> (h: DescentHint)
        requires
            self.wf(),
        ensures
            h.ok(self, key@),
    {
        let mut path: DescentPath = DescentPath::new();
        let mut p: u64 = self.get_meta(META_ROOT);
        proof {
            reveal(btree_model::tops_inv);
            assert(btree_model::top_ok(self.model@, None, 0));
        }
        while !self.is_leaf_page(p)
            invariant
                self.wf(),
                path.wf(),
                btree_model::path_ok(self.img(), self.model@, path@, p as int),
                btree_model::in_range(
                    key@,
                    btree_model::node(self.model@, p as int).lo,
                    btree_model::node(self.model@, p as int).hi,
                ),
            decreases btree_model::node(self.model@, p as int).level,
        {
            let ghost q = p;
            let ghost before = path@;
            path.push(p);
            p = self.internal_search(p, key);
        }
        let (slot, found) = self.leaf_find_slot(p, key);
        DescentHint { leaf_page: p, path, slot, found }
    }

    /// A copy of the value of slot `i` of a leaf.
    fn value_bytes_at(&self, p: u64, i: usize) -> (v: Vec<u8>)
        requires
            self.base(None),
            btree_model::is_leaf(self.model@, p as int),
            i < page::page_count(self.img()[p as int]),
        ensures
            v@ == btree_model::value_of(self.img(), page::cells(true, self.img()[p as int])[i as int]),
    {
        proof {
            reveal(btree_model::leaf_inv);
            assert(btree_model::leaf_inv(self.img(), self.model@, p as int));
            page::lemma_page_cells(true, self.img()[p as int]);
        }
        let c: Vec<u8> = page::copy_cell(self.page_bytes(p), true, i);
        let ghost k = page::key_of(true, c@);
        assert(btree_model::entry_ok(self.img(), self.model@, btree_model::node(self.model@, p as int), c@));
        let n: usize = le::rd_u16(c.as_slice(), 0) as usize;
        let raw: u32 = le::rd_u32(c.as_slice(), 2);
        let payload: Vec<u8> = le::copy_range(c.as_slice(), 6 + n, c.len());
        if raw >= page::OVFL_FLAG {
            let start: u64 = le::rd_u64(payload.as_slice(), 0);
            self.read_extent(start, raw - page::OVFL_FLAG)
        } else {
            payload
        }
    }

    /// A copy of the first `len` bytes of a run of pages.
    fn read_extent(&self, start: u64, len: u32) -> (v: Vec<u8>)
        requires
            self.base(None),
            forall|q: int|
                start <= q < start + btree_model::extent_pages(len as int) ==> #[trigger] self.model@.kind.contains_key(
                    q,
                ),
        ensures
            v@ == btree_model::extent_bytes(self.img(), start as int, len as int),
    {
        let mut v: Vec<u8> = Vec::new();
        let mut i: u64 = 0;
        let total: usize = len as usize;
        while v.len() < total
            invariant
                total == len,
                btree_model::bounds_inv(self.img(), self.model@, self.stats.pages as int),
                self.stats.pages <= MAX_PAGES,
                forall|q: int|
                    start <= q < start + btree_model::extent_pages(len as int)
                        ==> #[trigger] self.model@.kind.contains_key(q),
                i <= btree_model::extent_pages(len as int),
                v@.len() == (if total < i * PAGE_SIZE {
                    total as int
                } else {
                    i * PAGE_SIZE
                }),
                forall|x: int| 0 <= x < v@.len() ==> #[trigger] v@[x] == btree_model::extent_byte(
                    self.img(),
                    start as int,
                    x,
                ),
            decreases total - v@.len(),
        {
            assert(self.model@.kind.contains_key(start + i));
            let left: usize = total - v.len();
            let take: usize = if left < PAGE_SIZE { left } else { PAGE_SIZE };
            let ghost before = v@;
            let chunk: Vec<u8> = le::copy_range(self.page_bytes(start + i).as_slice(), 0, take);
            le::push_bytes(&mut v, chunk.as_slice());
            proof {
                assert forall|x: int| 0 <= x < v@.len() implies #[trigger] v@[x] == btree_model::extent_byte(
                    self.img(),
                    start as int,
                    x,
                ) by {
                    if x < before.len() {
                        assert(v@[x] == before[x]);
                    } else {
                        assert(x / PAGE_SIZE as int == i);
                        assert(x % PAGE_SIZE as int == x - i * PAGE_SIZE);
                    }
                }
            }
            i = i + 1;
        }
        assert(v@ =~= btree_model::extent_bytes(self.img(), start as int, len as int));
        v
    }

    /// The value of `key`.
    fn value_bytes_for(&self, key: &[u8]) -> (r: Option<Vec<u8>>)
        requires
            self.wf(),
        ensures
            match r {
                Some(v) => self.tree().map.contains_key(key@) && v@ == self.tree().map[key@],
                None => !self.tree().map.contains_key(key@),
            },
    {
        let p: u64 = self.find_leaf(key);
        let (i, found) = self.leaf_find_slot(p, key);
        proof {
            btree_model::lemma_lookup(self.img(), self.model@, p as int, key@, i as int, found);
        }
        if found {
            Some(self.value_bytes_at(p, i))
        } else {
            None
        }
    }

    // ---- leaf changes -----------------------------------------------------

    /// A change of leaf `p` that leaves the shape of the tree.
    spec fn leaf_step(&self, old: &BPlusTree, p: int) -> bool {
        &&& self.config == old.config
        &&& self.stats.pages == old.stats.pages
        &&& self.stats.entries == old.stats.entries
        &&& self.meta().root == old.meta().root
        &&& self.model@.kind == old.model@.kind
        &&& self.model@.leaves == old.model@.leaves
        &&& self.model@.free == old.model@.free
        &&& self.model@.tops == old.model@.tops
        &&& self.img().len() == old.img().len()
        &&& forall|q: int| 0 < q < old.img().len() && q != p ==> #[trigger] self.img()[q] == old.img()[q]
        &&& page::same_header(true, old.img()[p], self.img()[p])
    }

    fn write_leaf_entry_bytes(&mut self, n: u64)
        requires
            old(self).img().len() > 0,
            old(self).img()[0].len() == PAGE_SIZE,
        ensures
            final(self).img().len() == old(self).img().len(),
            forall|q: int| 0 < q < old(self).img().len() ==> #[trigger] final(self).img()[q] == old(self).img()[q],
            final(self).img()[0].len() == PAGE_SIZE,
            le::u32_at(final(self).img()[0], 0) == le::u32_at(old(self).img()[0], 0),
            final(self).meta() == (Meta { leaf_bytes: n, ..old(self).meta() }),
            final(self).stats == (BPlusTreeStats { leaf_entry_bytes: n, ..old(self).stats }),
            final(self).config == old(self).config,
            final(self).model == old(self).model,
    {
        self.put_meta(META_LEAF_ENTRY_BYTES, n);
        self.stats.leaf_entry_bytes = n;
    }

    /// Takes the entry of slot `i` out of leaf `p`.
    fn leaf_remove_entry(&mut self, p: u64, i: usize)
        requires
            old(self).base(None),
            btree_model::is_leaf(old(self).model@, p as int),
            i < page::page_count(old(self).img()[p as int]),
        ensures
            final(self).base(None),
            final(self).leaf_step(old(self), p as int),
            page::cells(true, final(self).img()[p as int]) == page::cells(true, old(self).img()[p as int]).remove(
                i as int,
            ),
            final(self).model@.map == old(self).model@.map.remove(
                page::key_of(true, page::cells(true, old(self).img()[p as int])[i as int]),
            ),
    {
        let ghost m = self.model@;
        let ghost img = self.img();
        let ghost n = self.stats.pages as int;
        let ghost cs = page::cells(true, img[p as int]);
        let ghost key = page::key_of(true, cs[i as int]);
        proof {
            reveal(btree_model::leaf_inv);
            assert(btree_model::leaf_inv(img, m, p as int));
            assert(btree_model::entry_ok(img, m, btree_model::node(m, p as int), cs[i as int]));
            page::lemma_used_remove(cs, i as int);
        }
        let (lo, hi) = page::cell_bounds(self.page_bytes(p), true, i);
        let gone: u64 = (hi - lo + 2) as u64;
        self.page_remove(p, true, i);
        let ghost img1 = self.img();
        proof {
            btree_model::lemma_leaf_total(img, m, img1, n, p as int);
        }
        let total: u64 = self.stats.leaf_entry_bytes - gone;
        self.write_leaf_entry_bytes(total);
        self.model = Ghost(Model { map: m.map.remove(key), ..m });
        proof {
            let img2 = self.img();
            let m2 = self.model@;
            btree_model::lemma_leaf_removed(img, m, img2, m2, p as int, i as int);
            le::lemma_u64_same(img[p as int], img2[p as int], 8, 8);
            le::lemma_u64_same(img[p as int], img2[p as int], 16, 16);
            page::lemma_page_cells(true, img2[p as int]);
            btree_model::lemma_leaf_update(img, m, img2, m2, n, p as int, key);
            btree_model::lemma_leaf_total(img, m, img2, n, p as int);
        }
    }

    /// Puts a cell before slot `pos` of leaf `p`, which has room for it.
    fn leaf_put_cell(&mut self, p: u64, pos: usize, c: &[u8])
        requires
            old(self).base(None),
            btree_model::is_leaf(old(self).model@, p as int),
            page::cell_ok(true, c@),
            btree_model::slot_found(old(self).img()[p as int], page::key_of(true, c@), pos as int, false),
            btree_model::in_range(
                page::key_of(true, c@),
                btree_model::node(old(self).model@, p as int).lo,
                btree_model::node(old(self).model@, p as int).hi,
            ),
            page::key_of(true, c@).len() <= btree_model::MAX_KEY,
            btree_model::extent_owned(old(self).model@, c@),
            btree_model::form_ok(c@),
            page::used(page::cells(true, old(self).img()[p as int])) + c@.len() + 2 <= page::page_room(true),
        ensures
            final(self).stats.free_pages <= old(self).stats.free_pages,
            final(self).base(None),
            final(self).leaf_step(old(self), p as int),
            final(self).model@.map == old(self).model@.map.insert(
                page::key_of(true, c@),
                btree_model::value_of(old(self).img(), c@),
            ),
            page::cells(true, final(self).img()[p as int]) == page::cells(true, old(self).img()[p as int]).insert(
                pos as int,
                c@,
            ),
    {
        let ghost m = self.model@;
        let ghost img = self.img();
        let ghost n = self.stats.pages as int;
        let ghost cs = page::cells(true, img[p as int]);
        let ghost key = page::key_of(true, c@);
        proof {
            reveal(btree_model::leaf_inv);
            assert(btree_model::leaf_inv(img, m, p as int));
            page::lemma_page_cells(true, img[p as int]);
            page::lemma_used_insert(cs, pos as int, c@);
        }
        let grown: u64 = c.len() as u64 + 2;
        self.page_insert(p, true, pos, c);
        let ghost img1 = self.img();
        proof {
            btree_model::lemma_leaf_total(img, m, img1, n, p as int);
        }
        let total: u64 = self.stats.leaf_entry_bytes + grown;
        self.write_leaf_entry_bytes(total);
        self.model = Ghost(Model { map: m.map.insert(key, btree_model::value_of(img, c@)), ..m });
        proof {
            let img2 = self.img();
            let m2 = self.model@;
            btree_model::lemma_value_kept(img, m, img2, m2, c@);
            btree_model::lemma_leaf_inserted(img, m, img2, m2, p as int, pos as int, c@);
            le::lemma_u64_same(img[p as int], img2[p as int], 8, 8);
            le::lemma_u64_same(img[p as int], img2[p as int], 16, 16);
            page::lemma_page_cells(true, img2[p as int]);
            btree_model::lemma_leaf_update(img, m, img2, m2, n, p as int, key);
            btree_model::lemma_leaf_total(img, m, img2, n, p as int);
        }
    }

    fn write_entries(&mut self, n: usize)
        requires
            old(self).base(None),
        ensures
            final(self).base(None),
            final(self).model == old(self).model,
            final(self).stats == (BPlusTreeStats { entries: n, ..old(self).stats }),
            final(self).config == old(self).config,
            final(self).meta().root == old(self).meta().root,
            final(self).img().len() == old(self).img().len(),
            forall|q: int| 0 < q < old(self).img().len() ==> #[trigger] final(self).img()[q] == old(self).img()[q],
    {
        let ghost m = self.model@;
        let ghost img = self.img();
        self.put_meta(META_ENTRIES, n as u64);
        self.stats.entries = n;
        proof {
            btree_model::lemma_free_frame(img, m, self.img(), m);
            btree_model::lemma_frame(
                img,
                m,
                None,
                self.stats.pages as int,
                self.img(),
                m,
                self.stats.pages as int,
                None,
            );
        }
    }

    /// Deletes the entry of slot `i` of leaf `p` and frees the pages of its value.
    fn delete_at(&mut self, p: u64, i: usize)
        requires
            old(self).wf(),
            btree_model::is_leaf(old(self).model@, p as int),
            i < page::page_count(old(self).img()[p as int]),
        ensures
            final(self).wf(),
            final(self).config == old(self).config,
            final(self).stats.pages == old(self).stats.pages,
            final(self).stats.entries == old(self).stats.entries - 1,
            final(self).model@.map == old(self).model@.map.remove(
                page::key_of(true, page::cells(true, old(self).img()[p as int])[i as int]),
            ),
            old(self).model@.map.contains_key(
                page::key_of(true, page::cells(true, old(self).img()[p as int])[i as int]),
            ),
            final(self).model@.leaves == old(self).model@.leaves,
            final(self).model@.tops == old(self).model@.tops,
            forall|q: int| #[trigger]
                btree_model::is_tree(old(self).model@, q) ==> btree_model::is_tree(final(self).model@, q)
                    && final(self).model@.kind[q] == old(self).model@.kind[q],
            forall|q: int| #[trigger]
                btree_model::is_tree(final(self).model@, q) ==> btree_model::is_tree(old(self).model@, q),
            forall|q: int| #[trigger]
                btree_model::is_tree(old(self).model@, q) && q != p ==> final(self).img()[q] == old(self).img()[q],
            page::cells(true, final(self).img()[p as int]) == page::cells(true, old(self).img()[p as int]).remove(
                i as int,
            ),
            page::same_header(true, old(self).img()[p as int], final(self).img()[p as int]),
            final(self).keeps_pages(old(self)),
            ({
                let key = page::key_of(true, page::cells(true, old(self).img()[p as int])[i as int]);
                let value = old(self).model@.map[key];
                final(self).model@.free.len() == old(self).model@.free.len() + (if key.len() + value.len() + 6 > 4064 {
                    (value.len() as int + 4095) / 4096
                } else {
                    0
                })
            }),
    {
        let ghost m = self.model@;
        let ghost img = self.img();
        let ghost cs = page::cells(true, img[p as int]);
        proof {
            reveal(btree_model::leaf_inv);
            assert(btree_model::leaf_inv(img, m, p as int));
            assert(btree_model::entry_ok(img, m, btree_model::node(m, p as int), cs[i as int]));
        }
        let c: Vec<u8> = page::copy_cell(self.page_bytes(p), true, i);
        let ghost key = page::key_of(true, c@);
        let klen: usize = le::rd_u16(c.as_slice(), 0) as usize;
        let raw: u32 = le::rd_u32(c.as_slice(), 2);
        self.leaf_remove_entry(p, i);
        let ghost mid = *self;
        if raw >= page::OVFL_FLAG {
            let payload: Vec<u8> = le::copy_range(c.as_slice(), 6 + klen, c.len());
            let start: u64 = le::rd_u64(payload.as_slice(), 0);
            assert(payload@ == page::payload_of(c@));
            assert(btree_model::extent_owned(m, c@));
            assert(start == page::extent_of(c@));
            assert forall|q: int|
                start <= q < start + btree_model::extent_pages(
                    raw - page::OVFL_FLAG,
                ) implies #[trigger] mid.model@.kind.contains_key(q) && mid.model@.kind[q] == Kind::Extent(key) by {
                assert(m.kind.contains_key(q));
            }
            let len: u32 = raw - page::OVFL_FLAG;
            self.free_extent(start, len, Ghost(key));
            proof {
                let n = btree_model::extent_pages(len as int);
                assert(btree_model::span(start as int, n).reverse().len() == n);
                assert(self.model@.free.len() == mid.model@.free.len() + n);
                assert(m.map[key].len() == len);
            }
        } else {
            proof {
                page::lemma_page_cells(true, img[p as int]);
                assert(page::cell_ok(true, cs[i as int]));
                assert(m.map[key].len() == raw);
            }
        }
        assert(btree_model::is_tree(mid.model@, p as int));
        let ghost mid2 = *self;
        assert(m.map.dom().remove(key).len() == m.map.dom().len() - 1);
        assert(m.map.remove(key).dom() =~= m.map.dom().remove(key));
        let left: usize = self.stats.entries - 1;
        self.write_entries(left);
        proof {
            assert forall|q: int| #[trigger] btree_model::is_tree(m, q) implies btree_model::is_tree(self.model@, q)
                && self.model@.kind[q] == m.kind[q] && (q != p ==> self.img()[q] == img[q]) && self.img()[q]
                == mid.img()[q] by {
                assert(btree_model::is_tree(mid.model@, q));
                assert(btree_model::is_tree(mid2.model@, q));
            }
            assert forall|q: int| #[trigger] btree_model::is_tree(self.model@, q) implies btree_model::is_tree(m, q) by {
                assert(btree_model::is_tree(mid2.model@, q));
                assert(btree_model::is_tree(mid.model@, q));
            }
        }
    }

    /// Appends the cells `from..to` of `order` to a page without cells.
    fn append_cells(&mut self, p: u64, leaf: bool, order: &Vec<Vec<u8>>, from: usize, to: usize)
        requires
            p < old(self).img().len(),
            page::page_ok(leaf, old(self).img()[p as int]),
            page::cells(leaf, old(self).img()[p as int]).len() == 0,
            from <= to <= order@.len(),
            forall|i: int| 0 <= i < order@.len() ==> page::cell_ok(leaf, #[trigger] page::deep(order@)[i]),
            page::used(page::deep(order@).subrange(from as int, to as int)) <= page::page_room(leaf),
        ensures
            final(self).only_page(old(self), p as int),
            page::page_ok(leaf, final(self).img()[p as int]),
            page::cells(leaf, final(self).img()[p as int]) == page::deep(order@).subrange(from as int, to as int),
            page::same_header(leaf, old(self).img()[p as int], final(self).img()[p as int]),
    {
        let ghost cs = page::deep(order@).subrange(from as int, to as int);
        let mut j: usize = from;
        assert(page::cells(leaf, self.img()[p as int]) =~= cs.take(0));
        while j < to
            invariant
                from <= j <= to <= order@.len(),
                cs == page::deep(order@).subrange(from as int, to as int),
                page::used(cs) <= page::page_room(leaf),
                forall|i: int| 0 <= i < order@.len() ==> page::cell_ok(leaf, #[trigger] page::deep(order@)[i]),
                p < self.img().len(),
                self.only_page(old(self), p as int),
                page::page_ok(leaf, self.img()[p as int]),
                page::cells(leaf, self.img()[p as int]) == cs.take(j - from),
                page::same_header(leaf, old(self).img()[p as int], self.img()[p as int]),
            decreases to - j,
        {
            let ghost x = j - from;
            proof {
                page::lemma_page_cells(leaf, self.img()[p as int]);
                page::lemma_used_step(cs, x);
                page::lemma_used_mono(cs, x + 1, cs.len() as int);
                assert(cs.take(cs.len() as int) =~= cs);
                assert(cs[x] == page::deep(order@)[j as int]);
                assert(page::cell_ok(leaf, page::deep(order@)[j as int]));
            }
            let n: usize = j - from;
            self.page_insert(p, leaf, n, order[j].as_slice());
            assert(cs.take(x).insert(x, cs[x]) =~= cs.take(x + 1));
            j = j + 1;
        }
        assert(cs.take(cs.len() as int) =~= cs);
    }

    /// Turns a page into an empty leaf.
    fn init_leaf(&mut self, p: u64, root: bool)
        requires
            0 < p < old(self).img().len(),
            old(self).img()[p as int].len() == PAGE_SIZE,
        ensures
            final(self).only_page(old(self), p as int),
            page::page_ok(true, final(self).img()[p as int]),
            final(self).img()[p as int][0] == page::PAGE_LEAF,
            page::cells(true, final(self).img()[p as int]) == Seq::<Seq<u8>>::empty(),
            btree_model::next_of(final(self).img()[p as int]) == 0,
            btree_model::prev_of(final(self).img()[p as int]) == 0,
    {
        self.put8(p, 0, page::PAGE_LEAF);
        self.put8(p, 1, if root { page::FLAG_ROOT } else { 0 });
        self.put64(p, 8, 0);
        let ghost a = self.img()[p as int];
        self.put64(p, 16, 0);
        let ghost b = self.img()[p as int];
        self.page_reset(p, true);
        proof {
            let c = self.img()[p as int];
            assert forall|i: int| 0 <= i < 8 implies #[trigger] a[8 + i] == c[8 + i] by {
                assert(b[8 + i] == a[8 + i]);
            }
            le::lemma_u64_same(a, c, 8, 8);
            le::lemma_u64_same(b, c, 16, 16);
        }
    }

    /// Cuts leaf `p` in two: it keeps the first `mid` cells of `order`, a new right
    /// neighbour gets the others.
    #[verifier::rlimit(40)]
    fn leaf_divide(
        &mut self,
        p: u64,
        order: &Vec<Vec<u8>>,
        mid: usize,
        total: usize,
        sep: &Vec<u8>,
        Ghost(k0): Ghost<Option<Seq<u8>>>,
        Ghost(map2): Ghost<Map<Seq<u8>, Seq<u8>>>,
    ) -> (right: u64)
        requires
            old(self).base(None),
            old(self).stats.pages < MAX_PAGES,
            btree_model::is_leaf(old(self).model@, p as int),
            btree_model::cells_cover(
                old(self).img(),
                (Model { map: map2, ..old(self).model@ }),
                btree_model::node(old(self).model@, p as int),
                page::deep(order@),
            ),
            page::leaf_cut_fits(page::deep(order@), mid as int),
            total == page::used(page::deep(order@)),
            lex::lt(page::key_of(true, page::deep(order@)[mid - 1]), sep@),
            lex::le(sep@, page::key_of(true, page::deep(order@)[mid as int])),
            sep@.len() <= btree_model::MAX_KEY,
            k0 is Some ==> btree_model::in_range(
                k0->0,
                btree_model::node(old(self).model@, p as int).lo,
                btree_model::node(old(self).model@, p as int).hi,
            ),
            btree_model::maps_agree(old(self).model@.map, map2, k0),
        ensures
            final(self).base(Some((p as int, right as int))),
            final(self).config == old(self).config,
            final(self).stats.pages <= old(self).stats.pages + 1,
            final(self).stats.entries == old(self).stats.entries,
            final(self).meta().root == old(self).meta().root,
            final(self).model@.map == map2,
            final(self).model@.tops == old(self).model@.tops,
            right == old(self).next_page(),
            final(self).keeps_pages(old(self)),
            final(self).drew(old(self)),
            final(self).model@.leaves == old(self).model@.leaves.insert(
                btree_model::leaf_index(old(self).model@, p as int) + 1,
                right as int,
            ),
            !btree_model::is_tree(old(self).model@, right as int),
            !btree_model::is_extent(old(self).model@, right as int),
            final(self).model@.kind == old(self).model@.kind.insert(
                p as int,
                Kind::Tree(Node { hi: Some(sep@), ..btree_model::node(old(self).model@, p as int) }),
            ).insert(
                right as int,
                Kind::Tree(
                    Node {
                        level: 0,
                        lo: Some(sep@),
                        hi: btree_model::node(old(self).model@, p as int).hi,
                        parent: 0,
                    },
                ),
            ),
            page::cells(true, final(self).img()[p as int]) == page::deep(order@).take(mid as int),
            page::cells(true, final(self).img()[right as int]) == page::deep(order@).skip(mid as int),
            forall|q: int| #[trigger]
                btree_model::is_leaf(old(self).model@, q) && q != p ==> page::cells(true, final(self).img()[q])
                    == page::cells(true, old(self).img()[q]),
            forall|q: int| #[trigger]
                btree_model::is_inner(old(self).model@, q) ==> final(self).img()[q] == old(self).img()[q],
            forall|q: int| #[trigger]
                btree_model::is_extent(old(self).model@, q) ==> final(self).img()[q] == old(self).img()[q],
    {
        let ghost m0 = self.model@;
        let ghost img0 = self.img();
        let ghost cs = page::deep(order@);
        let ghost mm = Model { map: map2, ..m0 };
        let ghost nd = btree_model::node(m0, p as int);
        let right: u64 = self.alloc_page(Ghost(None));
        let ghost m = self.model@;
        let ghost img = self.img();
        let ghost n = self.stats.pages as int;
        assert(btree_model::is_leaf(m, p as int));
        let ghost x = btree_model::leaf_index(m, p as int);
        proof {
            btree_model::lemma_leaf_index(img, m, p as int);
            reveal(btree_model::leaf_inv);
            assert(btree_model::leaf_inv(img, m, p as int));
            page::lemma_page_cells(true, img[p as int]);
            assert(img[p as int] == img0[p as int]);
        }
        let spare: usize = page::free_space(self.page_bytes(p), true);
        proof {
            page::lemma_used_bound(page::cells(true, img[p as int]));
        }
        let old_used: usize = PAGE_SIZE - page::LEAF_HEADER_SIZE - spare;
        let old_next: u64 = le::rd_u64(self.page_bytes(p).as_slice(), 8);
        self.init_leaf(right, false);
        self.page_reset(p, true);
        let ghost s1 = *self;
        proof {
            assert(cs.subrange(0, mid as int) =~= cs.take(mid as int));
            assert(cs.subrange(mid as int, cs.len() as int) =~= cs.skip(mid as int));
        }
        self.append_cells(p, true, order, 0, mid);
        let ghost s2 = *self;
        self.append_cells(right, true, order, mid, order.len());
        let ghost s3 = *self;
        proof {
            page::lemma_page_cells(true, s3.img()[right as int]);
            assert(s3.img()[p as int] == s2.img()[p as int]);
            page::lemma_page_cells(true, s3.img()[p as int]);
        }
        self.put64(right, 8, old_next);
        let ghost s4 = *self;
        self.put64(right, 16, p);
        let ghost s5 = *self;
        self.put64(p, 8, right);
        let ghost s6 = *self;
        proof {
            let rb = right as int;
            let pb = p as int;
            page::lemma_same_body(true, s3.img()[rb], s5.img()[rb]);
            page::lemma_same_body(true, s3.img()[pb], s6.img()[pb]);
            assert forall|i: int| 0 <= i < 8 implies #[trigger] s4.img()[rb][8 + i] == s5.img()[rb][8 + i] by {}
            le::lemma_u64_same(s4.img()[rb], s5.img()[rb], 8, 8);
            assert forall|i: int| 0 <= i < 8 implies #[trigger] img[pb][16 + i] == s6.img()[pb][16 + i] by {
                assert(s1.img()[pb][16 + i] == img[pb][16 + i]);
                assert(s2.img()[pb][16 + i] == s1.img()[pb][16 + i]);
            }
            le::lemma_u64_same(img[pb], s6.img()[pb], 16, 16);
            assert(s6.img()[rb] == s5.img()[rb]);
        }
        if old_next != 0 {
            proof {
                btree_model::lemma_next_leaf(img, m, p as int);
            }
            self.put64(old_next, 16, right);
            proof {
                let q = old_next as int;
                assert(s6.img()[q] == img[q]);
                assert forall|i: int| 0 <= i < 8 implies #[trigger] img[q][8 + i] == self.img()[q][8 + i] by {}
                le::lemma_u64_same(img[q], self.img()[q], 8, 8);
            }
        } else {
            self.put_meta(META_RIGHTMOST_LEAF, right);
        }
        let ghost s7 = *self;
        assert(s6.img()[0] == img[0]);
        proof {
            assert(btree_model::split_pages(img, s7.img(), p as int, right as int)) by {
                assert(s7.img()[p as int] == s6.img()[p as int]);
                assert(s7.img()[right as int] == s6.img()[right as int]);
                assert forall|q: int|
                    0 < q < img.len() && q != p && q != right && q != old_next implies #[trigger] s7.img()[q] == img[q] by {
                    assert(s6.img()[q] == s3.img()[q]);
                }
                assert forall|q: int| 0 <= q < s7.img().len() implies (#[trigger] s7.img()[q]).len() == PAGE_SIZE by {
                    if q != 0 && q != p && q != right && q != old_next {
                        assert(s7.img()[q] == img[q]);
                    }
                }
            }
            btree_model::lemma_split_total(img, m, s7.img(), n, p as int, right as int, x);
            page::lemma_used_append(cs.take(mid as int), cs.skip(mid as int));
            assert(cs.take(mid as int) + cs.skip(mid as int) =~= cs);
        }
        let bytes: u64 = self.stats.leaf_entry_bytes - old_used as u64 + total as u64;
        self.write_leaf_entry_bytes(bytes);
        let count: u64 = self.stats.leaf_pages + 1;
        self.put_meta(META_LEAF_PAGES, count);
        self.stats.leaf_pages = count;
        let ghost m2 = btree_model::split_model(m, p as int, right as int, x, sep@, map2);
        self.model = Ghost(m2);
        proof {
            let img2 = self.img();
            assert(btree_model::split_pages(img, img2, p as int, right as int)) by {
                assert(img2[p as int] == s7.img()[p as int]);
                assert(img2[right as int] == s7.img()[right as int]);
                assert forall|q: int|
                    0 < q < img.len() && q != p && q != right && q != old_next implies #[trigger] img2[q] == img[q] by {
                    assert(s7.img()[q] == img[q]);
                }
                assert forall|q: int| 0 <= q < img2.len() implies (#[trigger] img2[q]).len() == PAGE_SIZE by {
                    if q != 0 {
                        assert(img2[q] == s7.img()[q]);
                    }
                }
                if old_next != 0 {
                    assert(img2[old_next as int] == s7.img()[old_next as int]);
                }
            }
            assert forall|q: int| #[trigger] btree_model::is_inner(m0, q) implies img2[q] == img0[q] by {
                assert(m.kind.contains_key(q));
                if old_next != 0 {
                    btree_model::lemma_next_leaf(img, m, p as int);
                }
                assert(img2[q] == img[q]);
            }
            assert forall|q: int| #[trigger] btree_model::is_extent(m0, q) implies img2[q] == img0[q] by {
                assert(m.kind.contains_key(q));
                if old_next != 0 {
                    btree_model::lemma_next_leaf(img, m, p as int);
                }
                assert(img2[q] == img[q]);
            }
            assert forall|q: int| #[trigger] btree_model::is_leaf(m0, q) && q != p implies page::cells(true, img2[q])
                == page::cells(true, img0[q]) by {
                assert(m.kind.contains_key(q));
                assert(btree_model::is_leaf(m, q));
                if q == old_next {
                    assert(btree_model::leaf_inv(img, m, q));
                    assert(page::page_ok(true, img[q])) by {
                        reveal(btree_model::leaf_inv);
                    }
                    assert(img2[q] == s7.img()[q]);
                    page::lemma_same_body(true, img[q], img2[q]);
                } else {
                    assert(img2[q] == img[q]);
                }
            }
            assert(btree_model::extents_kept(img0, mm, img2, m2, None)) by {
                assert forall|q: int| #[trigger] mm.kind.contains_key(q) && mm.kind[q] is Extent implies m2.kind.contains_key(
                    q,
                ) && m2.kind[q] == mm.kind[q] && img2[q] == img0[q] by {
                    assert(m.kind.contains_key(q));
                    if old_next != 0 {
                        btree_model::lemma_next_leaf(img, m, p as int);
                    }
                    assert(img2[q] == img[q]);
                }
            }
            btree_model::lemma_halves(img0, mm, img2, m2, p as int, right as int, nd, cs, mid as int, sep@);
            btree_model::lemma_leaf_split(img, m, img2, m2, n, p as int, right as int, x, sep@, k0);
            btree_model::lemma_split_total(img, m, img2, n, p as int, right as int, x);
            btree_model::lemma_split_last(img, m, p as int, right as int, x);
            assert(m.kind.insert(
                p as int,
                Kind::Tree(Node { hi: Some(sep@), ..btree_model::node(m, p as int) }),
            ).insert(
                right as int,
                Kind::Tree(Node { level: 0, lo: Some(sep@), hi: nd.hi, parent: 0 }),
            ) =~= m0.kind.insert(
                p as int,
                Kind::Tree(Node { hi: Some(sep@), ..nd }),
            ).insert(
                right as int,
                Kind::Tree(Node { level: 0, lo: Some(sep@), hi: nd.hi, parent: 0 }),
            ));
        }
        right
    }

    // ---- internal pages and cascading splits ------------------------------

    /// Turns a page into an internal page with one child.
    fn init_internal(&mut self, p: u64, leftmost: u64)
        requires
            0 < p < old(self).img().len(),
            old(self).img()[p as int].len() == PAGE_SIZE,
        ensures
            final(self).only_page(old(self), p as int),
            page::page_ok(false, final(self).img()[p as int]),
            final(self).img()[p as int][0] == page::PAGE_INTERNAL,
            page::cells(false, final(self).img()[p as int]) == Seq::<Seq<u8>>::empty(),
            le::u64_at(final(self).img()[p as int], 8) == leftmost,
            final(self).img()[p as int].len() == PAGE_SIZE,
    {
        self.put8(p, 0, page::PAGE_INTERNAL);
        self.put8(p, 1, 0);
        self.put64(p, 8, leftmost);
        let ghost a = self.img()[p as int];
        self.page_reset(p, false);
        proof {
            let c = self.img()[p as int];
            le::lemma_u64_same(a, c, 8, 8);
            page::lemma_page_cells(false, c);
        }
    }

    /// Puts the right half `child` of a split page behind its left half in their parent
    /// `q`, which is split in turn where it has no room.
    fn internal_insert(&mut self, q: u64, sep: &Vec<u8>, left: u64, child: u64) -> (r: Option<PageSplit>)
        requires
            old(self).base(Some((left as int, child as int))),
            old(self).stats.pages < MAX_PAGES,
            btree_model::is_inner(old(self).model@, q as int),
            btree_model::node(old(self).model@, left as int).parent == q,
            btree_model::node(old(self).model@, left as int).hi == Some(sep@),
            btree_model::listed(old(self).img(), q as int, left as int),
        ensures
            final(self).config == old(self).config,
            final(self).stats.pages <= old(self).stats.pages + 1,
            final(self).stats.entries == old(self).stats.entries,
            final(self).meta().root == old(self).meta().root,
            final(self).same_leaves(old(self)),
            match r {
                None => final(self).base(None),
                Some(ps) => {
                    &&& ps.left_page == q
                    &&& final(self).base(Some((q as int, ps.right_page as int)))
                    &&& btree_model::node(final(self).model@, q as int).hi == Some(ps.separator_key@)
                },
            },
            final(self).above(old(self), q as int),
            final(self).keeps_pages(old(self)),
            final(self).drew(old(self)),
    {
        let ghost m = self.model@;
        let ghost img = self.img();
        let ghost n = self.stats.pages as int;
        let ghost (l, r) = (left as int, child as int);
        let ghost lm = le::u64_at(img[q as int], 8) as int;
        let ghost cs = page::cells(false, img[q as int]);
        let ghost at = choose|i: int|
            0 <= i <= page::cells(false, img[q as int]).len() && #[trigger] btree_model::kid(img[q as int], i) == l;
        proof {
            reveal(btree_model::inner_inv);
            assert(btree_model::inner_inv(img, m, Some((l, r)), q as int));
            page::lemma_page_cells(false, img[q as int]);
            page::lemma_inner_cell(sep@, child);
        }
        let c: Vec<u8> = page::write_internal_entry(sep.as_slice(), child);
        let ghost order = cs.insert(at, c@);
        let (pos, found) = page::find_slot(self.page_bytes(q), false, sep.as_slice());
        proof {
            btree_model::lemma_kids_in_order(img, m, l, r, q as int, at, c@);
            lex::order_laws();
            if pos < at {
                assert(lex::lt(btree_model::sep(img[q as int], pos as int), sep@));
            } else if pos > at {
                assert(lex::lt(sep@, btree_model::sep(img[q as int], at)));
            }
            assert(pos == at);
            assert(order[at] == c@);
            assert(btree_model::kid_of(lm, order, at + 1) == r);
        }
        let spare: usize = page::free_space(self.page_bytes(q), false);
        if c.len() + 2 > spare {
            return Some(self.internal_split(q, pos, &c, left, child));
        }
        self.page_insert(q, false, pos, c.as_slice());
        self.model = Ghost(btree_model::placed_model(m, q as int, r));
        proof {
            le::lemma_u64_same(img[q as int], self.img()[q as int], 8, 8);
            page::lemma_page_cells(false, self.img()[q as int]);
            btree_model::lemma_inner_insert(img, m, self.img(), self.model@, n, l, r, q as int, order);
            assert(btree_model::kid_in_order(m, q as int, r, lm, order, at + 1, r));
        }
        None
    }

    /// The leaves, their ranges and their pages are those of `old`.
    spec fn same_leaves(&self, old: &BPlusTree) -> bool {
        &&& self.model@.map == old.model@.map
        &&& self.model@.leaves == old.model@.leaves
        &&& forall|p: int| #[trigger] btree_model::is_leaf(old.model@, p) ==> {
            &&& btree_model::is_leaf(self.model@, p)
            &&& btree_model::node(self.model@, p).lo == btree_model::node(old.model@, p).lo
            &&& btree_model::node(self.model@, p).hi == btree_model::node(old.model@, p).hi
            &&& page::cells(true, self.img()[p]) == page::cells(true, old.img()[p])
        }
        &&& forall|q: int| #[trigger] btree_model::is_extent(old.model@, q) ==> btree_model::is_extent(self.model@, q)
            && self.model@.kind[q] == old.model@.kind[q] && self.img()[q] == old.img()[q]
    }

    /// No page that was in use or free is lost, nor any that was taken at the end.
    spec fn keeps_pages(&self, old: &BPlusTree) -> bool {
        forall|q: int|
            old.model@.kind.contains_key(q) || old.stats.pages <= q < self.stats.pages
                ==> #[trigger] self.model@.kind.contains_key(q)
    }

    /// Pages were taken from the freelist, and at the end only once that was empty.
    spec fn drew(&self, old: &BPlusTree) -> bool {
        &&& old.stats.pages <= self.stats.pages
        &&& self.stats.free_pages <= old.stats.free_pages
        &&& old.stats.pages < self.stats.pages ==> self.stats.free_pages == 0
    }

    /// Internal page `q` has no room for the separator at the end of its range.
    spec fn brim(&self, q: int) -> bool {
        let hi = btree_model::node(self.model@, q).hi;
        hi is Some ==> page::used(page::cells(false, self.img()[q])) + hi->0.len() + 12 > page::page_room(false)
    }

    /// The internal pages of `old` keep their cells and where their ranges end.
    spec fn inner_kept(&self, old: &BPlusTree) -> bool {
        forall|q: int| #[trigger]
            btree_model::is_inner(old.model@, q) ==> {
                &&& btree_model::is_inner(self.model@, q)
                &&& btree_model::node(self.model@, q).hi == btree_model::node(old.model@, q).hi
                &&& page::cells(false, self.img()[q]) == page::cells(false, old.img()[q])
            }
    }

    /// Every internal page but the last of its level is full.
    spec fn inner_full(&self) -> bool {
        forall|q: int| #[trigger] btree_model::is_inner(self.model@, q) ==> self.brim(q)
    }

    /// Tree pages above the level of `q` are those of `old`; so is `q` but for its range.
    spec fn above(&self, old: &BPlusTree, q: int) -> bool {
        let lv = btree_model::node(old.model@, q).level;
        &&& self.model@.tops == old.model@.tops
        &&& btree_model::is_tree(self.model@, q)
        &&& btree_model::node(self.model@, q).level == lv
        &&& btree_model::node(self.model@, q).parent == btree_model::node(old.model@, q).parent
        &&& forall|p: int| #[trigger]
            btree_model::is_tree(old.model@, p) && btree_model::node(old.model@, p).level > lv ==> {
                &&& btree_model::is_tree(self.model@, p)
                &&& self.model@.kind[p] == old.model@.kind[p]
                &&& self.img()[p] == old.img()[p]
            }
    }

    /// The two internal pages hold the cells before and behind cell `m`, which moved up.
    spec fn inner_halves(&self, ps: &PageSplit, cs: Seq<Seq<u8>>, m: int) -> bool {
        &&& page::cells(false, self.img()[ps.left_page as int]) == cs.take(m)
        &&& page::cells(false, self.img()[ps.right_page as int]) == cs.skip(m + 1)
        &&& le::u64_at(self.img()[ps.right_page as int], 8) == page::child_of(cs[m])
        &&& ps.separator_key@ == page::key_of(false, cs[m])
    }

    /// Splits a full internal page at the byte midpoint of its cells and the new one. The
    /// cell at the cut moves up: its separator goes to the parent, its child becomes the
    /// leftmost child of the new page.
    #[verifier::rlimit(40)]
    fn internal_split(&mut self, q: u64, pos: usize, c: &Vec<u8>, left: u64, child: u64) -> (ps: PageSplit)
        requires
            old(self).base(Some((left as int, child as int))),
            old(self).stats.pages < MAX_PAGES,
            btree_model::is_inner(old(self).model@, q as int),
            btree_model::node(old(self).model@, left as int).parent == q,
            btree_model::node(old(self).model@, left as int).hi == Some(page::key_of(false, c@)),
            page::cell_ok(false, c@),
            page::child_of(c@) == child,
            pos <= page::cells(false, old(self).img()[q as int]).len(),
            btree_model::kid(old(self).img()[q as int], pos as int) == left,
            page::used(page::cells(false, old(self).img()[q as int])) + c@.len() + 2 > page::page_room(false),
        ensures
            final(self).config == old(self).config,
            final(self).stats.pages <= old(self).stats.pages + 1,
            final(self).stats.entries == old(self).stats.entries,
            final(self).meta().root == old(self).meta().root,
            final(self).same_leaves(old(self)),
            ps.left_page == q,
            final(self).base(Some((q as int, ps.right_page as int))),
            btree_model::node(final(self).model@, q as int).hi == Some(ps.separator_key@),
            final(self).above(old(self), q as int),
            ps.right_page == old(self).next_page(),
            final(self).keeps_pages(old(self)),
            final(self).drew(old(self)),
            exists|m: int| #[trigger]
                page::is_inner_cut(page::cells(false, old(self).img()[q as int]).insert(pos as int, c@), m)
                    && final(self).inner_halves(
                    &ps,
                    page::cells(false, old(self).img()[q as int]).insert(pos as int, c@),
                    m,
                ),
    {
        let ghost (l, r) = (left as int, child as int);
        let ghost pend = Some((l, r));
        let ghost start = *self;
        let ghost m0 = self.model@;
        let ghost img0 = self.img();
        let w: u64 = self.alloc_page(Ghost(pend));
        let ghost m = self.model@;
        let ghost img = self.img();
        let ghost n = self.stats.pages as int;
        let ghost lm = le::u64_at(img[q as int], 8) as int;
        let ghost cs = page::cells(false, img[q as int]);
        let ghost order_v = cs.insert(pos as int, c@);
        assert(m.kind.contains_key(q as int));
        assert(img[q as int] == img0[q as int]);
        proof {
            reveal(btree_model::inner_inv);
            assert(btree_model::is_inner(m, q as int));
            assert(btree_model::inner_inv(img, m, pend, q as int));
            page::lemma_page_cells(false, img[q as int]);
            assert(m.kind.contains_key(l));
            btree_model::lemma_kids_in_order(img, m, l, r, q as int, pos as int, c@);
            page::lemma_used_insert(cs, pos as int, c@);
            page::lemma_used_bound(cs);
            assert(c@.len() == 10 + page::key_of(false, c@).len());
            assert(order_v[pos as int] == c@);
            assert(page::cell_ok(false, order_v[pos as int]) && page::key_of(false, order_v[pos as int]).len()
                <= btree_model::MAX_KEY);
            assert(btree_model::kid_of(lm, order_v, pos + 1) == r);
            assert(btree_model::kid_from(lm, order_v, 0, r));
        }
        let order: Vec<Vec<u8>> = page::order_with(self.page_bytes(q), false, pos, c);
        proof {
            assert forall|i: int| 0 <= i < order@.len() implies (#[trigger] page::deep(order@)[i]).len() + 2
                <= page::page_room(false) by {
                assert(page::cell_ok(false, order_v[i]) && page::key_of(false, order_v[i]).len()
                    <= btree_model::MAX_KEY);
            }
            if cs.len() == 0 {
                assert(page::used(cs) == 0);
            }
        }
        let total: usize = page::room_taken(&order);
        let mid: usize = page::internal_cut(&order, total);
        proof {
            assert(page::deep(order@)[mid as int] == order@[mid as int]@);
            assert(page::cell_ok(false, order_v[mid as int]));
        }
        let up: Vec<u8> = page::copy_key(order[mid].as_slice(), false);
        let lifted: u64 = le::rd_u64(order[mid].as_slice(), 2);
        proof {
            assert(page::deep(order@)[mid as int] == order@[mid as int]@);
            assert(order_v.subrange(0, mid as int) =~= order_v.take(mid as int));
            assert(order_v.subrange(mid + 1, order_v.len() as int) =~= order_v.skip(mid + 1));
        }
        self.init_internal(w, lifted);
        let ghost s1 = *self;
        self.page_reset(q, false);
        let ghost s2 = *self;
        self.append_cells(q, false, &order, 0, mid);
        let ghost s3 = *self;
        assert(s3.img()[w as int] == s1.img()[w as int]);
        self.append_cells(w, false, &order, mid + 1, order.len());
        self.model = Ghost(btree_model::inner_split_model(m, q as int, w as int, r, lm, order_v, mid as int));
        proof {
            let img2 = self.img();
            let m2 = self.model@;
            let qq = q as int;
            let ww = w as int;
            assert(img2[qq] == s3.img()[qq]);
            assert forall|i: int| 0 <= i < 8 implies #[trigger] img[qq][8 + i] == img2[qq][8 + i] by {
                assert(s1.img()[qq] == img[qq]);
                assert(s2.img()[qq][8 + i] == s1.img()[qq][8 + i]);
            }
            le::lemma_u64_same(img[qq], img2[qq], 8, 8);
            assert forall|i: int| 0 <= i < 8 implies #[trigger] s1.img()[ww][8 + i] == img2[ww][8 + i] by {
                assert(s3.img()[ww][8 + i] == s1.img()[ww][8 + i]);
            }
            le::lemma_u64_same(s1.img()[ww], img2[ww], 8, 8);
            page::lemma_page_cells(false, img2[qq]);
            page::lemma_page_cells(false, img2[ww]);
            assert forall|p: int| 0 <= p < img.len() && p != q && p != w implies #[trigger] img2[p] == img[p] by {
                assert(s3.img()[p] == s2.img()[p]);
                assert(s2.img()[p] == s1.img()[p]);
            }
            assert forall|p: int| 0 <= p < img2.len() implies (#[trigger] img2[p]).len() == PAGE_SIZE by {
                if p != q && p != w {
                    assert(img2[p] == img[p]);
                }
            }
            btree_model::lemma_inner_split(img, m, img2, m2, n, l, r, qq, ww, order_v, mid as int);
            assert(self.same_leaves(&start)) by {
                assert forall|p: int| #[trigger] btree_model::is_leaf(m0, p) implies btree_model::is_leaf(m2, p)
                    && btree_model::node(m2, p).lo == btree_model::node(m0, p).lo && btree_model::node(m2, p).hi
                    == btree_model::node(m0, p).hi && img2[p] == img0[p] by {
                    assert(m.kind.contains_key(p));
                    assert(btree_model::is_leaf(m, p));
                    assert(img2[p] == img[p]);
                }
                assert forall|x: int| #[trigger] btree_model::is_extent(m0, x) implies btree_model::is_extent(m2, x)
                    && m2.kind[x] == m0.kind[x] && img2[x] == img0[x] by {
                    assert(m.kind.contains_key(x));
                    assert(btree_model::is_extent(m, x));
                    assert(img2[x] == img[x]);
                }
            }
            assert(self.above(&start, qq)) by {
                assert forall|p: int| #[trigger]
                    btree_model::is_tree(m0, p) && btree_model::node(m0, p).level > btree_model::node(
                        m0,
                        qq,
                    ).level implies btree_model::is_tree(m2, p) && m2.kind[p] == m0.kind[p] && img2[p] == img0[p] by {
                    assert(m.kind.contains_key(p));
                    assert(img2[p] == img[p]);
                    if btree_model::kid_from(lm, order_v, mid + 1, p) {
                        let t = choose|t: int|
                            mid + 1 <= t <= order_v.len() && #[trigger] btree_model::kid_of(lm, order_v, t) == p;
                        assert(btree_model::kid_in_order(m, qq, r, lm, order_v, t, p));
                    }
                    assert(btree_model::kid_in_order(m, qq, r, lm, order_v, pos + 1, r));
                }
            }
        }
        let ps = PageSplit { left_page: q, right_page: w, separator_key: up };
        assert(page::is_inner_cut(order_v, mid as int) && self.inner_halves(&ps, order_v, mid as int));
        ps
    }

    /// Carries a split up the path of a descent: each parent takes the new right page, or
    /// is split in turn; a split of the root gets a new root above it.
    #[verifier::rlimit(40)]
    fn cascade_split(&mut self, path: DescentPath, split: PageSplit)
        requires
            path.wf(),
            old(self).base(Some((split.left_page as int, split.right_page as int))),
            old(self).model@.tops.len() == 1,
            old(self).meta().root == old(self).model@.tops[0],
            old(self).stats.pages + path@.len() + 1 <= MAX_PAGES,
            btree_model::path_ok(old(self).img(), old(self).model@, path@, split.left_page as int),
            btree_model::node(old(self).model@, split.left_page as int).hi == Some(split.separator_key@),
        ensures
            final(self).base(None),
            final(self).model@.tops.len() == 1,
            final(self).meta().root == final(self).model@.tops[0],
            final(self).config == old(self).config,
            final(self).stats.pages <= old(self).stats.pages + path@.len() + 1,
            final(self).stats.entries == old(self).stats.entries,
            final(self).same_leaves(old(self)),
            btree_model::node(final(self).model@, final(self).model@.tops[0]).level <= btree_model::node(
                old(self).model@,
                old(self).model@.tops[0],
            ).level + 1,
            final(self).keeps_pages(old(self)),
            final(self).drew(old(self)),
    {
        let ghost mut rest: Seq<u64> = path@;
        let ghost way = path@;
        let ups: Vec<u64> = path.drain_rev();
        let mut k: usize = 0;
        let mut left: u64 = split.left_page;
        let mut right: u64 = split.right_page;
        let mut sep: Vec<u8> = split.separator_key;
        let ghost start = *self;
        let ghost depth = way.len();
        assert(way.take(depth as int) =~= way);
        let ghost top = self.model@.tops[0];
        loop
            invariant
                k <= ups@.len(),
                ups@ == way.reverse(),
                way == path@,
                depth == way.len(),
                rest == way.take(depth - k),
                start == *old(self),
                self.base(Some((left as int, right as int))),
                self.model@.tops == start.model@.tops,
                start.model@.tops.len() == 1,
                start.model@.tops[0] == top,
                self.meta().root == top,
                self.config == start.config,
                self.stats.entries == start.stats.entries,
                rest.len() <= depth,
                self.stats.pages <= start.stats.pages + depth - rest.len(),
                start.stats.pages + depth + 1 <= MAX_PAGES,
                btree_model::path_ok(self.img(), self.model@, rest, left as int),
                btree_model::node(self.model@, left as int).hi == Some(sep@),
                self.same_leaves(&start),
                self.keeps_pages(&start),
                self.drew(&start),
                btree_model::node(self.model@, top).level == btree_model::node(start.model@, top).level,
            ensures
                rest.len() == 0,
            decreases rest.len(),
        {
            let ghost whole = rest;
            let ghost prev = *self;
            if k == ups.len() {
                break;
            }
            let q: u64 = ups[k];
            k = k + 1;
            proof {
                rest = whole.drop_last();
                assert(rest =~= way.take(depth - k));
            }
            let ghost n = whole.len() as int;
            assert(q == whole[n - 1]);
            assert(btree_model::is_inner(self.model@, q as int));
            let r: Option<PageSplit> = self.internal_insert(q, &sep, left, right);
            proof {
                if n >= 2 {
                    assert(whole[n - 2] == rest[n - 2]);
                }
                assert forall|i: int| 0 <= i < n - 1 implies #[trigger] rest[i] == whole[i] by {}
                self.lemma_path_up(&prev, whole, rest, left as int, q as int);
                prev.lemma_same_leaves_trans(&start, self);
            }
            match r {
                None => {
                    return;
                },
                Some(ps) => {
                    left = q;
                    right = ps.right_page;
                    sep = ps.separator_key;
                },
            }
        }
        let ghost mid = *self;
        self.grow_root(left, right, &sep);
        proof {
            mid.lemma_same_leaves_trans(&start, self);
        }
    }

    proof fn lemma_same_leaves_trans(&self, old: &BPlusTree, new: &BPlusTree)
        requires
            self.same_leaves(old),
            new.same_leaves(self),
        ensures
            new.same_leaves(old),
    {
        assert forall|p: int| #[trigger] btree_model::is_leaf(old.model@, p) implies {
            &&& btree_model::is_leaf(new.model@, p)
            &&& btree_model::node(new.model@, p).lo == btree_model::node(old.model@, p).lo
            &&& btree_model::node(new.model@, p).hi == btree_model::node(old.model@, p).hi
            &&& page::cells(true, new.img()[p]) == page::cells(true, old.img()[p])
        } by {
            assert(btree_model::is_leaf(self.model@, p));
        }
        assert forall|q: int| #[trigger] btree_model::is_extent(old.model@, q) implies btree_model::is_extent(
            new.model@,
            q,
        ) && new.model@.kind[q] == old.model@.kind[q] && new.img()[q] == old.img()[q] by {
            assert(btree_model::is_extent(self.model@, q));
        }
    }

    proof fn lemma_path_up(&self, prev: &BPlusTree, whole: Seq<u64>, rest: Seq<u64>, left: int, q: int)
        requires
            btree_model::path_ok(prev.img(), prev.model@, whole, left),
            whole.len() >= 1,
            rest == whole.drop_last(),
            q == whole.last(),
            self.above(prev, q),
        ensures
            btree_model::path_ok(self.img(), self.model@, rest, q),
            btree_model::node(self.model@, prev.model@.tops[0]).level == btree_model::node(
                prev.model@,
                prev.model@.tops[0],
            ).level,
    {
        let n = whole.len() as int;
        let m0 = prev.model@;
        let m = self.model@;
        assert forall|i: int| 0 <= i < n - 1 implies #[trigger] rest[i] == whole[i] && btree_model::is_tree(
            m,
            whole[i] as int,
        ) && m.kind[whole[i] as int] == m0.kind[whole[i] as int] && self.img()[whole[i] as int]
            == prev.img()[whole[i] as int] by {
            assert(btree_model::is_tree(m0, whole[i] as int));
        }
        assert(btree_model::is_tree(m0, whole[n - 1] as int));
        if n >= 2 {
            assert(rest[0] == whole[0]);
            assert(rest[n - 2] == whole[n - 2]);
            assert(btree_model::node(m0, whole[n - 1] as int).parent == whole[n - 2] && btree_model::listed(
                prev.img(),
                whole[n - 2] as int,
                whole[n - 1] as int,
            ));
        }
        assert forall|i: int, j: int| 0 <= i && j == i + 1 && j < n - 1 implies btree_model::node(
            m,
            #[trigger] rest[j] as int,
        ).parent == #[trigger] rest[i] && btree_model::listed(self.img(), rest[i] as int, rest[j] as int) by {
            assert(rest[i] == whole[i] && rest[j] == whole[j]);
            assert(btree_model::node(m0, whole[j] as int).parent == whole[i]);
        }
    }

    /// Puts a new internal page over topmost page `child`, the one at `j`.
    fn wrap_top(&mut self, child: u64, Ghost(j): Ghost<int>) -> (w: u64)
        requires
            old(self).base(None),
            old(self).stats.pages < MAX_PAGES,
            0 <= j < old(self).model@.tops.len(),
            old(self).model@.tops[j] == child,
        ensures
            final(self).stats.free_pages <= old(self).stats.free_pages,
            final(self).base(None),
            final(self).config == old(self).config,
            final(self).stats.pages <= old(self).stats.pages + 1,
            final(self).stats.entries == old(self).stats.entries,
            final(self).meta().root == old(self).meta().root,
            final(self).same_leaves(old(self)),
            final(self).keeps_pages(old(self)),
            final(self).model@.tops == old(self).model@.tops.update(j, w as int),
            btree_model::is_tree(final(self).model@, w as int),
            !btree_model::is_tree(old(self).model@, w as int),
            btree_model::node(final(self).model@, w as int) == (Node {
                level: btree_model::node(old(self).model@, child as int).level + 1,
                parent: 0,
                ..btree_model::node(old(self).model@, child as int)
            }),
            page::cells(false, final(self).img()[w as int]).len() == 0,
            btree_model::is_tree(final(self).model@, child as int),
            final(self).drew(old(self)),
            final(self).inner_kept(old(self)),
            forall|q: int| #[trigger]
                btree_model::is_inner(final(self).model@, q) ==> q == w || btree_model::is_inner(old(self).model@, q),
            forall|p: int| #[trigger]
                btree_model::is_tree(old(self).model@, p) && p != child ==> btree_model::is_tree(final(self).model@, p)
                    && final(self).model@.kind[p] == old(self).model@.kind[p] && final(self).img()[p] == old(
                    self,
                ).img()[p],
    {
        let ghost m0 = self.model@;
        let ghost img0 = self.img();
        proof {
            reveal(btree_model::tops_inv);
            assert(btree_model::top_ok(m0, None, j));
        }
        let w: u64 = self.alloc_page(Ghost(None));
        let ghost m = self.model@;
        let ghost img = self.img();
        let ghost n = self.stats.pages as int;
        self.init_internal(w, child);
        self.model = Ghost(btree_model::wrap_model(m, j, w as int));
        proof {
            let img2 = self.img();
            let m2 = self.model@;
            assert forall|p: int| 0 <= p < img2.len() implies (#[trigger] img2[p]).len() == PAGE_SIZE by {
                if p != w {
                    assert(img2[p] == img[p]);
                }
            }
            btree_model::lemma_wrap(img, m, img2, m2, n, j, w as int);
            assert forall|p: int| #[trigger] btree_model::is_tree(m0, p) implies btree_model::is_tree(m, p) && m.kind[p]
                == m0.kind[p] && img2[p] == img0[p] by {
                assert(m.kind.contains_key(p));
                assert(img2[p] == img[p]);
            }
            assert forall|p: int| #[trigger] btree_model::is_leaf(m0, p) implies btree_model::is_leaf(m2, p)
                && btree_model::node(m2, p).lo == btree_model::node(m0, p).lo && btree_model::node(m2, p).hi
                == btree_model::node(m0, p).hi && page::cells(true, img2[p]) == page::cells(true, img0[p]) by {
                assert(btree_model::is_tree(m0, p));
            }
            assert forall|x: int| #[trigger] btree_model::is_extent(m0, x) implies btree_model::is_extent(m2, x)
                && m2.kind[x] == m0.kind[x] && img2[x] == img0[x] by {
                assert(m.kind.contains_key(x));
                assert(img2[x] == img[x]);
            }
            assert forall|q: int| #[trigger] btree_model::is_inner(m0, q) implies btree_model::is_inner(m2, q)
                && btree_model::node(m2, q).hi == btree_model::node(m0, q).hi && img2[q] == img0[q] by {
                assert(btree_model::is_tree(m0, q));
            }
        }
        w
    }

    /// Makes topmost page `child`, the one at `j + 1`, the last child of its left
    /// neighbour `w`.
    fn adopt_top(&mut self, w: u64, child: u64, sep: &Vec<u8>, Ghost(j): Ghost<int>)
        requires
            old(self).base(None),
            0 <= j < old(self).model@.tops.len() - 1,
            old(self).model@.tops[j] == w,
            old(self).model@.tops[j + 1] == child,
            btree_model::is_inner(old(self).model@, w as int),
            btree_model::node(old(self).model@, child as int).level + 1 == btree_model::node(
                old(self).model@,
                w as int,
            ).level,
            btree_model::node(old(self).model@, child as int).lo == Some(sep@),
            sep@.len() <= btree_model::MAX_KEY,
            btree_model::inside(
                sep@,
                btree_model::node(old(self).model@, w as int).lo,
                btree_model::node(old(self).model@, child as int).hi,
            ),
            page::cells(false, old(self).img()[w as int]).len() > 0 ==> lex::lt(
                page::key_of(false, page::cells(false, old(self).img()[w as int]).last()),
                sep@,
            ),
            page::used(page::cells(false, old(self).img()[w as int])) + sep@.len() + 12 <= page::page_room(false),
        ensures
            final(self).base(None),
            final(self).config == old(self).config,
            final(self).stats == old(self).stats,
            final(self).meta().root == old(self).meta().root,
            final(self).same_leaves(old(self)),
            final(self).keeps_pages(old(self)),
            final(self).model@.tops == old(self).model@.tops.remove(j + 1),
            btree_model::is_tree(final(self).model@, w as int),
            btree_model::node(final(self).model@, w as int) == (Node {
                hi: btree_model::node(old(self).model@, child as int).hi,
                ..btree_model::node(old(self).model@, w as int)
            }),
            page::cells(false, final(self).img()[w as int]).len() > 0,
            page::key_of(false, page::cells(false, final(self).img()[w as int]).last()) == sep@,
            forall|q: int| #[trigger]
                btree_model::is_inner(old(self).model@, q) && q != w ==> btree_model::is_inner(final(self).model@, q)
                    && btree_model::node(final(self).model@, q).hi == btree_model::node(old(self).model@, q).hi
                    && final(self).img()[q] == old(self).img()[q],
            forall|q: int| #[trigger]
                btree_model::is_inner(final(self).model@, q) ==> btree_model::is_inner(old(self).model@, q),
            forall|p: int| #[trigger]
                btree_model::is_tree(old(self).model@, p) && p != child && p != w ==> btree_model::is_tree(
                    final(self).model@,
                    p,
                ) && final(self).model@.kind[p] == old(self).model@.kind[p] && final(self).img()[p] == old(
                    self,
                ).img()[p],
    {
        let ghost m = self.model@;
        let ghost img = self.img();
        let ghost n = self.stats.pages as int;
        proof {
            reveal(btree_model::tops_inv);
            assert(btree_model::top_ok(m, None, j + 1));
            assert(m.tops[j] != m.tops[j + 1]);
            reveal(btree_model::inner_inv);
            assert(btree_model::inner_inv(img, m, None, w as int));
            page::lemma_page_cells(false, img[w as int]);
            page::lemma_inner_cell(sep@, child);
        }
        let c: Vec<u8> = page::write_internal_entry(sep.as_slice(), child);
        let count: usize = page::read_count(self.page_bytes(w));
        self.page_insert(w, false, count, c.as_slice());
        self.model = Ghost(btree_model::adopt_model(m, j));
        proof {
            let img2 = self.img();
            let cs = page::cells(false, img[w as int]);
            assert(cs.insert(count as int, c@) =~= cs.push(c@));
            assert(cs.push(c@).last() == c@);
            le::lemma_u64_same(img[w as int], img2[w as int], 8, 8);
            page::lemma_page_cells(false, img2[w as int]);
            assert forall|p: int| 0 <= p < img2.len() implies (#[trigger] img2[p]).len() == PAGE_SIZE by {
                if p != w {
                    assert(img2[p] == img[p]);
                }
            }
            btree_model::lemma_adopt(img, m, img2, self.model@, n, j, c@);
        }
    }

    /// Marks a page as the root, or not.
    fn set_flag(&mut self, p: u64, root: bool)
        requires
            old(self).base(None),
            btree_model::is_tree(old(self).model@, p as int),
        ensures
            final(self).base(None),
            final(self).only_page(old(self), p as int),
            final(self).img()[p as int] == old(self).img()[p as int].update(
                1,
                if root {
                    page::FLAG_ROOT
                } else {
                    0
                },
            ),
            final(self).meta().root == old(self).meta().root,
            final(self).same_leaves(old(self)),
    {
        let ghost m = self.model@;
        let ghost img = self.img();
        let v: u8 = if root { page::FLAG_ROOT } else { 0 };
        self.put8(p, 1, v);
        proof {
            btree_model::lemma_flag(img, m, self.img(), self.stats.pages as int, p as int, v);
        }
    }

    fn set_root(&mut self, p: u64)
        requires
            old(self).base(None),
        ensures
            final(self).base(None),
            final(self).config == old(self).config,
            final(self).stats == old(self).stats,
            final(self).model == old(self).model,
            final(self).meta().root == p,
            final(self).same_leaves(old(self)),
            forall|q: int| 0 < q < old(self).img().len() ==> #[trigger] final(self).img()[q] == old(self).img()[q],
    {
        let ghost m = self.model@;
        let ghost img = self.img();
        self.put_meta(META_ROOT, p);
        proof {
            btree_model::lemma_free_frame(img, m, self.img(), m);
            btree_model::lemma_frame(
                img,
                m,
                None,
                self.stats.pages as int,
                self.img(),
                m,
                self.stats.pages as int,
                None,
            );
        }
    }

    /// A new root over the two halves of the old one.
    fn grow_root(&mut self, left: u64, right: u64, sep: &Vec<u8>)
        requires
            old(self).base(Some((left as int, right as int))),
            old(self).stats.pages < MAX_PAGES,
            old(self).model@.tops.len() == 1,
            old(self).model@.tops[0] == left,
            btree_model::node(old(self).model@, left as int).hi == Some(sep@),
        ensures
            final(self).base(None),
            final(self).model@.tops.len() == 1,
            final(self).meta().root == final(self).model@.tops[0],
            final(self).config == old(self).config,
            final(self).stats.pages <= old(self).stats.pages + 1,
            final(self).stats.entries == old(self).stats.entries,
            final(self).same_leaves(old(self)),
            btree_model::node(final(self).model@, final(self).model@.tops[0]).level == btree_model::node(
                old(self).model@,
                left as int,
            ).level + 1,
            final(self).keeps_pages(old(self)),
            final(self).drew(old(self)),
    {
        let ghost start = *self;
        let ghost m = self.model@;
        self.model = Ghost(Model { tops: seq![left as int, right as int], ..m });
        proof {
            assert(m.tops.push(right as int) =~= seq![left as int, right as int]);
            btree_model::lemma_pend_to_tops(self.img(), m, self.stats.pages as int, left as int, right as int);
        }
        let ghost s1 = *self;
        let w: u64 = self.wrap_top(left, Ghost(0));
        let ghost s2 = *self;
        assert(btree_model::is_tree(s1.model@, right as int));
        self.adopt_top(w, right, sep, Ghost(0));
        let ghost s3 = *self;
        self.set_flag(w, true);
        let ghost s4 = *self;
        assert(btree_model::is_tree(s2.model@, left as int));
        self.set_flag(left, false);
        let ghost s5 = *self;
        self.set_root(w);
        proof {
            assert(s1.same_leaves(&start));
            s1.lemma_same_leaves_trans(&start, &s2);
            s2.lemma_same_leaves_trans(&start, &s3);
            s3.lemma_same_leaves_trans(&start, &s4);
            s4.lemma_same_leaves_trans(&start, &s5);
            s5.lemma_same_leaves_trans(&start, self);
        }
    }

    // ---- insertion --------------------------------------------------------

    /// A leaf cell whose key belongs before slot `pos` of leaf `p`.
    spec fn cell_for(&self, p: int, pos: int, c: Seq<u8>) -> bool {
        &&& btree_model::is_leaf(self.model@, p)
        &&& page::cell_ok(true, c)
        &&& c.len() + 2 <= page::page_room(true)
        &&& page::key_of(true, c).len() <= btree_model::MAX_KEY
        &&& btree_model::slot_found(self.img()[p], page::key_of(true, c), pos, false)
        &&& btree_model::in_range(
            page::key_of(true, c),
            btree_model::node(self.model@, p).lo,
            btree_model::node(self.model@, p).hi,
        )
        &&& btree_model::extent_owned(self.model@, c)
        &&& btree_model::form_ok(c)
    }

    /// The two leaves hold the cells before and from `m` on, with the shortest separator between
    /// them.
    spec fn halves(&self, ps: &PageSplit, cs: Seq<Seq<u8>>, m: int) -> bool {
        &&& page::cells(true, self.img()[ps.left_page as int]) == cs.take(m)
        &&& page::cells(true, self.img()[ps.right_page as int]) == cs.skip(m)
        &&& ps.separator_key@ == lex::separator(page::key_of(true, cs[m - 1]), page::key_of(true, cs[m]))
    }

    /// Splits a leaf that has no room for a new cell. The cut is at the byte midpoint of
    /// the old cells and the new one, or one cell before it; where no cut leaves two
    /// halves that fit, the leaf is cut where the new cell belongs, and the new cell is
    /// not placed.
    #[verifier::rlimit(40)]
    fn leaf_split(&mut self, p: u64, pos: usize, c: &Vec<u8>) -> (r: (PageSplit, bool))
        requires
            old(self).base(None),
            old(self).stats.pages < MAX_PAGES,
            old(self).cell_for(p as int, pos as int, c@),
            page::used(page::cells(true, old(self).img()[p as int])) + c@.len() + 2 > page::page_room(true),
        ensures
            final(self).base(Some((p as int, r.0.right_page as int))),
            r.0.left_page == p,
            final(self).config == old(self).config,
            final(self).stats.pages <= old(self).stats.pages + 1,
            final(self).stats.entries == old(self).stats.entries,
            final(self).meta().root == old(self).meta().root,
            final(self).model@.tops == old(self).model@.tops,
            btree_model::node(final(self).model@, p as int).hi == Some(r.0.separator_key@),
            r.0.right_page == old(self).next_page(),
            forall|q: int| #[trigger]
                btree_model::is_leaf(old(self).model@, q) && q != p ==> page::cells(true, final(self).img()[q])
                    == page::cells(true, old(self).img()[q]),
            btree_model::is_leaf(final(self).model@, r.0.right_page as int),
            btree_model::is_leaf(final(self).model@, p as int),
            final(self).keeps_pages(old(self)),
            final(self).drew(old(self)),
            final(self).model@.leaves == old(self).model@.leaves.insert(
                btree_model::leaf_index(old(self).model@, p as int) + 1,
                r.0.right_page as int,
            ),
            r.1 ==> {
                &&& final(self).model@.map == old(self).model@.map.insert(
                    page::key_of(true, c@),
                    btree_model::value_of(old(self).img(), c@),
                )
                &&& exists|m: int| #[trigger]
                    page::is_leaf_cut(page::cells(true, old(self).img()[p as int]).insert(pos as int, c@), m)
                        && final(self).halves(
                        &r.0,
                        page::cells(true, old(self).img()[p as int]).insert(pos as int, c@),
                        m,
                    )
            },
            !r.1 ==> {
                &&& final(self).model@.map == old(self).model@.map
                &&& page::cells(true, final(self).img()[p as int]) == page::cells(true, old(self).img()[p as int]).take(
                    pos as int,
                )
                &&& btree_model::is_leaf(final(self).model@, r.0.right_page as int)
                &&& btree_model::in_range(
                    page::key_of(true, c@),
                    btree_model::node(final(self).model@, r.0.right_page as int).lo,
                    btree_model::node(final(self).model@, r.0.right_page as int).hi,
                )
                &&& page::cells(true, final(self).img()[r.0.right_page as int]) == page::cells(
                    true,
                    old(self).img()[p as int],
                ).skip(pos as int)
                &&& forall|m: int| !#[trigger] page::leaf_cut_fits(
                    page::cells(true, old(self).img()[p as int]).insert(pos as int, c@),
                    m,
                )
            },
            forall|q: int| #[trigger]
                btree_model::is_tree(old(self).model@, q) ==> btree_model::is_tree(final(self).model@, q)
                    && btree_model::node(final(self).model@, q).level == btree_model::node(old(self).model@, q).level
                    && btree_model::node(final(self).model@, q).parent == btree_model::node(old(self).model@, q).parent,
            forall|q: int| #[trigger]
                btree_model::is_inner(old(self).model@, q) ==> final(self).img()[q] == old(self).img()[q],
            forall|q: int| #[trigger]
                btree_model::is_extent(old(self).model@, q) ==> btree_model::is_extent(final(self).model@, q)
                    && final(self).model@.kind[q] == old(self).model@.kind[q] && final(self).img()[q] == old(
                    self,
                ).img()[q],
    {
        let ghost m = self.model@;
        let ghost img = self.img();
        let ghost cs = page::cells(true, img[p as int]);
        let ghost key = page::key_of(true, c@);
        let ghost order_v = cs.insert(pos as int, c@);
        let ghost map2 = m.map.insert(key, btree_model::value_of(img, c@));
        let ghost mm = Model { map: map2, ..m };
        proof {
            assert(btree_model::leaf_inv(img, m, p as int));
            assert(page::page_ok(true, img[p as int])) by {
                reveal(btree_model::leaf_inv);
            }
            page::lemma_page_cells(true, img[p as int]);
            btree_model::lemma_cover_inserted(img, m, mm, p as int, pos as int, c@);
            btree_model::lemma_cover_same(img, m, p as int);
            page::lemma_used_insert(cs, pos as int, c@);
            page::lemma_used_bound(cs);
            assert(order_v[pos as int] == c@);
        }
        let order: Vec<Vec<u8>> = page::order_with(self.page_bytes(p), true, pos, c);
        proof {
            assert forall|i: int| 0 <= i < order@.len() implies (#[trigger] page::deep(order@)[i]).len() + 2
                <= page::page_room(true) by {
                if i < pos {
                    assert(order_v[i] == cs[i]);
                } else if i > pos {
                    assert(order_v[i] == cs[i - 1]);
                }
            }
            if cs.len() == 0 {
                assert(page::used(cs) == 0);
            }
        }
        let total: usize = page::room_taken(&order);
        match page::leaf_cut(&order, total) {
            Some(mid) => {
                proof {
                    assert(page::cell_ok(true, order_v[mid - 1]) && page::cell_ok(true, order_v[mid as int]));
                    assert(btree_model::entry_ok(img, mm, btree_model::node(m, p as int), order_v[mid as int]));
                }
                let sep: Vec<u8> = page::cut_separator(&order, mid);
                let right: u64 = self.leaf_divide(p, &order, mid, total, &sep, Ghost(Some(key)), Ghost(map2));
                let ps = PageSplit { left_page: p, right_page: right, separator_key: sep };
                assert(page::is_leaf_cut(order_v, mid as int) && self.halves(&ps, order_v, mid as int));
                (ps, true)
            },
            None => {
                proof {
                    page::lemma_no_cut(cs, pos as int, c@);
                    lex::order_laws();
                    assert(page::cell_ok(true, order_v[pos - 1]) && page::cell_ok(true, order_v[pos as int]));
                    assert(order_v[pos - 1] == cs[pos - 1]);
                    assert(lex::lt(key, page::key_of(true, cs[pos as int])));
                }
                let plain: Vec<Vec<u8>> = page::copy_cells(self.page_bytes(p), true);
                let sep: Vec<u8> = page::cut_separator(&order, pos);
                let whole: usize = page::room_taken(&plain);
                assert((Model { map: m.map, ..m }) == m);
                let right: u64 = self.leaf_divide(p, &plain, pos, whole, &sep, Ghost(None), Ghost(m.map));
                (PageSplit { left_page: p, right_page: right, separator_key: sep }, false)
            },
        }
    }

    /// A complete tree but for the count of its entries.
    spec fn whole(&self) -> bool {
        &&& self.base(None)
        &&& self.model@.tops.len() == 1
        &&& self.meta().root == self.model@.tops[0]
    }

    /// The number of internal levels.
    pub closed spec fn height(&self) -> nat {
        btree_model::node(self.model@, self.model@.tops[0]).level
    }

    /// The number of pages in use or on the freelist.
    pub closed spec fn page_count(&self) -> nat {
        self.stats.pages as nat
    }

    proof fn lemma_root_is_tree(&self)
        requires
            self.whole(),
        ensures
            btree_model::is_tree(self.model@, self.model@.tops[0]),
    {
        reveal(btree_model::tops_inv);
        assert(btree_model::top_ok(self.model@, None, 0));
    }

    /// Splits the leaf of a new cell and carries the split up.
    fn split_and_cascade(&mut self, p: u64, pos: usize, path: DescentPath, c: &Vec<u8>) -> (placed: bool)
        requires
            old(self).whole(),
            path.wf(),
            btree_model::path_ok(old(self).img(), old(self).model@, path@, p as int),
            old(self).stats.pages + path@.len() + 2 <= MAX_PAGES,
            old(self).cell_for(p as int, pos as int, c@),
            page::used(page::cells(true, old(self).img()[p as int])) + c@.len() + 2 > page::page_room(true),
        ensures
            final(self).whole(),
            final(self).config == old(self).config,
            final(self).stats.entries == old(self).stats.entries,
            final(self).stats.pages <= old(self).stats.pages + path@.len() + 2,
            final(self).height() <= old(self).height() + 1,
            final(self).keeps_pages(old(self)),
            final(self).drew(old(self)),
            placed ==> {
                &&& final(self).model@.map == old(self).model@.map.insert(
                    page::key_of(true, c@),
                    btree_model::value_of(old(self).img(), c@),
                )
                &&& exists|m: int| #[trigger]
                    page::is_leaf_cut(page::cells(true, old(self).img()[p as int]).insert(pos as int, c@), m)
                        && final(self).leaf_cells() == btree_model::in_two(
                        old(self).leaf_cells(),
                        btree_model::leaf_index(old(self).model@, p as int),
                        page::cells(true, old(self).img()[p as int]).insert(pos as int, c@),
                        m,
                    )
            },
            !placed ==> {
                &&& final(self).model@.map == old(self).model@.map
                &&& btree_model::extent_owned(final(self).model@, c@)
                &&& btree_model::value_of(final(self).img(), c@) == btree_model::value_of(old(self).img(), c@)
                &&& exists|r: int| #[trigger]
                    final(self).right_half(r, old(self), p as int, pos as int, c@) && final(self).model@.leaves
                        == old(self).model@.leaves.insert(btree_model::leaf_index(old(self).model@, p as int) + 1, r)
                &&& final(self).leaf_cells() == btree_model::in_two(
                    old(self).leaf_cells(),
                    btree_model::leaf_index(old(self).model@, p as int),
                    page::cells(true, old(self).img()[p as int]),
                    pos as int,
                )
                &&& forall|m: int| !#[trigger] page::leaf_cut_fits(
                    page::cells(true, old(self).img()[p as int]).insert(pos as int, c@),
                    m,
                )
            },
    {
        let ghost start = *self;
        let (split, placed) = self.leaf_split(p, pos, c);
        let ghost mid = *self;
        let ghost r = split.right_page as int;
        proof {
            start.lemma_root_is_tree();
            btree_model::lemma_path_frame(start.img(), start.model@, mid.img(), mid.model@, path@, p as int);
        }
        self.cascade_split(path, split);
        proof {
            let x = btree_model::leaf_index(start.model@, p as int);
            let old_cs = page::cells(true, start.img()[p as int]);
            btree_model::lemma_leaf_index(start.img(), start.model@, p as int);
            assert forall|j: int| 0 <= j < start.model@.leaves.len() implies page::cells(
                true,
                self.img()[#[trigger] start.model@.leaves[j]],
            ) == page::cells(true, mid.img()[start.model@.leaves[j]]) && (j != x ==> page::cells(
                true,
                mid.img()[start.model@.leaves[j]],
            ) == page::cells(true, start.img()[start.model@.leaves[j]])) by {
                let q = start.model@.leaves[j];
                start.lemma_leaf_facts(j);
                assert(btree_model::is_leaf(start.model@, q));
                assert(btree_model::is_tree(start.model@, q));
                assert(btree_model::is_leaf(mid.model@, q));
                if j != x {
                    btree_model::lemma_index_at(start.img(), start.model@, j);
                }
            }
            if placed {
                let order = old_cs.insert(pos as int, c@);
                let m = choose|m: int| #[trigger] page::is_leaf_cut(order, m) && mid.halves(&split, order, m);
                btree_model::lemma_blocks_cut(start.img(), start.model@.leaves, self.img(), x, r, order, m);
                assert(page::is_leaf_cut(order, m));
            } else {
                btree_model::lemma_blocks_cut(start.img(), start.model@.leaves, self.img(), x, r, old_cs, pos as int);
            }
            if !placed {
                assert(btree_model::is_leaf(mid.model@, r));
                assert(self.right_half(r, &start, p as int, pos as int, c@));
                assert forall|q: int|
                    #[trigger] start.model@.kind.contains_key(q) && start.model@.kind[q] == Kind::Extent(
                        page::key_of(true, c@),
                    ) implies self.model@.kind.contains_key(q) && self.model@.kind[q] == start.model@.kind[q]
                    && self.img()[q] == start.img()[q] by {
                    assert(btree_model::is_extent(start.model@, q));
                    assert(btree_model::is_extent(mid.model@, q));
                }
                btree_model::lemma_value_kept(start.img(), start.model@, self.img(), self.model@, c@);
            }
        }
        placed
    }

    /// The cells of the leaves after a change of leaf `x`.
    proof fn lemma_cells_step(&self, to: &BPlusTree, x: int)
        requires
            self.base(None),
            0 <= x < self.model@.leaves.len(),
            to.leaf_step(self, self.model@.leaves[x]),
        ensures
            to.leaf_cells() == self.leaf_cells().update(x, page::cells(true, to.img()[self.model@.leaves[x]])),
    {
        let ls = self.model@.leaves;
        assert forall|j: int| 0 <= j < ls.len() && j != x implies page::cells(true, to.img()[#[trigger] ls[j]])
            == page::cells(true, self.img()[ls[j]]) by {
            self.lemma_leaf_facts(j);
            btree_model::lemma_index_at(self.img(), self.model@, j);
            btree_model::lemma_index_at(self.img(), self.model@, x);
            assert(self.model@.kind.contains_key(ls[j]));
        }
        btree_model::lemma_blocks_one(self.img(), ls, to.img(), x);
    }

    /// Leaf `r` holds the cells from slot `pos` on of what was leaf `p`.
    spec fn right_half(&self, r: int, old: &BPlusTree, p: int, pos: int, c: Seq<u8>) -> bool {
        &&& btree_model::is_leaf(self.model@, r)
        &&& btree_model::in_range(
            page::key_of(true, c),
            btree_model::node(self.model@, r).lo,
            btree_model::node(self.model@, r).hi,
        )
        &&& page::cells(true, self.img()[r]) == page::cells(true, old.img()[p]).skip(pos)
    }

    /// Puts a new cell into the tree, splitting pages as needed.
    fn place_cell(&mut self, hint: DescentHint, c: &Vec<u8>)
        requires
            old(self).wf(),
            hint.ok(old(self), page::key_of(true, c@)),
            !hint.found,
            old(self).cell_for(hint.leaf_page as int, hint.slot as int, c@),
            old(self).stats.pages + 2 * old(self).height() + 8 <= MAX_PAGES,
        ensures
            final(self).whole(),
            final(self).config == old(self).config,
            final(self).stats.entries == old(self).stats.entries,
            final(self).model@.map == old(self).model@.map.insert(
                page::key_of(true, c@),
                btree_model::value_of(old(self).img(), c@),
            ),
            final(self).stats.pages <= old(self).stats.pages + 2 * old(self).height() + 5,
            final(self).height() <= old(self).height() + 2,
            page::used(page::cells(true, old(self).img()[hint.leaf_page as int])) + c@.len() + 2 <= page::page_room(
                true,
            ) ==> final(self).leaf_step(old(self), hint.leaf_page as int) && page::cells(
                true,
                final(self).img()[hint.leaf_page as int],
            ) == page::cells(true, old(self).img()[hint.leaf_page as int]).insert(hint.slot as int, c@),
            final(self).keeps_pages(old(self)),
            final(self).drew(old(self)),
            btree_model::put_cell(
                old(self).leaf_cells(),
                final(self).leaf_cells(),
                btree_model::leaf_index(old(self).model@, hint.leaf_page as int),
                hint.slot as int,
                c@,
            ),
    {
        let ghost start = *self;
        let ghost x = btree_model::leaf_index(self.model@, hint.leaf_page as int);
        let ghost cs = page::cells(true, self.img()[hint.leaf_page as int]);
        let ghost key = page::key_of(true, c@);
        proof {
            reveal(btree_model::leaf_inv);
            assert(btree_model::leaf_inv(self.img(), self.model@, hint.leaf_page as int));
            page::lemma_page_cells(true, self.img()[hint.leaf_page as int]);
            page::lemma_used_bound(cs);
            page::lemma_used_insert(cs, hint.slot as int, c@);
            btree_model::lemma_leaf_index(self.img(), self.model@, hint.leaf_page as int);
        }
        let p: u64 = hint.leaf_page;
        let pos: usize = hint.slot;
        let spare: usize = page::free_space(self.page_bytes(p), true);
        if c.len() + 2 <= spare {
            self.leaf_put_cell(p, pos, c.as_slice());
            proof {
                start.lemma_cells_step(self, x);
            }
            return;
        }
        if self.split_and_cascade(p, pos, hint.path, c) {
            return;
        }
        let ghost mid = *self;
        let k: Vec<u8> = page::copy_key(c.as_slice(), true);
        let again: DescentHint = self.descend_to_leaf(k.as_slice());
        proof {
            let r = choose|r: int| #[trigger]
                mid.right_half(r, &start, p as int, pos as int, c@) && mid.model@.leaves
                    == start.model@.leaves.insert(x + 1, r);
            assert(mid.model@.leaves[x + 1] == r);
            btree_model::lemma_one_leaf(mid.img(), mid.model@, again.leaf_page as int, r, key);
            let b = page::cells(true, mid.img()[r]);
            assert(b == cs.skip(pos as int));
            lex::order_laws();
            if again.slot > 0 {
                assert(lex::lt(page::key_of(true, b[0]), key));
                assert(b[0] == cs[pos as int]);
                assert(lex::lt(key, page::key_of(true, cs[pos as int])));
            }
            if again.found {
                assert(page::key_of(true, b[0]) == key);
                assert(b[0] == cs[pos as int]);
                assert(lex::lt(key, page::key_of(true, cs[pos as int])));
            }
            assert(btree_model::leaf_inv(mid.img(), mid.model@, r));
            page::lemma_page_cells(true, mid.img()[r]);
            page::lemma_used_bound(b);
            let order = b.insert(0, c@);
            assert(order.take(1) =~= seq![c@]);
            assert(order.skip(1) =~= b);
            page::lemma_used_one(c@);
            if b.len() > 0 {
                assert(page::leaf_cut_fits(order, 1));
            }
        }
        let p2: u64 = again.leaf_page;
        let spare2: usize = page::free_space(self.page_bytes(p2), true);
        proof {
            assert(mid.model@.leaves[x + 1] == p2);
            btree_model::lemma_index_at(mid.img(), mid.model@, x + 1);
            page::lemma_used_insert(page::cells(true, mid.img()[p2 as int]), 0, c@);
            assert(mid.leaf_cells()[x + 1] == page::cells(true, mid.img()[p2 as int]));
        }
        if c.len() + 2 <= spare2 {
            self.leaf_put_cell(p2, again.slot, c.as_slice());
            proof {
                mid.lemma_cells_step(self, x + 1);
            }
            return;
        }
        proof {
            let b = page::cells(true, mid.img()[p2 as int]);
            if b.len() == 0 {
                assert(page::used(b) == 0);
            }
        }
        let placed: bool = self.split_and_cascade(p2, again.slot, again.path, c);
        assert(placed);
    }

    /// The tree has room for one more entry with a value of `n` bytes.
    pub open spec fn has_room(&self, n: int) -> bool {
        &&& self.page_count() + btree_model::extent_pages(n) + 2 * self.height() + 8 <= MAX_PAGES
        &&& self@.len() < usize::MAX
    }

    /// What a write of an entry does to the pages. It takes no more of them than its room, and loses
    /// none. Where the value stays in the leaf, pages at the end are taken only once none is free.
    /// One leaf takes the cell of the entry, and is cut at its byte midpoint where it has no room; the
    /// others keep theirs.
    pub open spec fn grown(&self, to: &Self, key: Seq<u8>, value: Seq<u8>) -> bool {
        &&& to.wf()
        &&& to.config_view() == self.config_view()
        &&& self.page_count() <= to.page_count()
        &&& to.page_count() <= self.page_count() + btree_model::extent_pages(value.len() as int) + 2 * self.height() + 8
        &&& key.len() + value.len() + 6 <= MAX_INLINE && to.page_count() > self.page_count()
            ==> to.stats_view().free_pages == 0
        &&& to.height() <= self.height() + 2
        &&& self.accounted() ==> to.accounted()
        &&& exists|i: int, pos: int, c: Seq<u8>| #[trigger]
            btree_model::entry_put(self.leaf_cells(), to.leaf_cells(), i, pos, c) && page::key_of(true, c) == key
                && c.len() == btree_model::cell_size(key.len() as int, value.len() as int)
    }

    /// Builds the leaf cell of an entry, storing a large value in pages of its own.
    fn make_cell(&mut self, key: &[u8], value: &[u8]) -> (c: Vec<u8>)
        requires
            old(self).base(None),
            key@.len() <= btree_model::MAX_KEY,
            value@.len() < page::OVFL_FLAG,
            !old(self).model@.map.contains_key(key@),
            old(self).stats.pages + btree_model::extent_pages(value@.len() as int) <= MAX_PAGES,
        ensures
            final(self).stats.free_pages <= old(self).stats.free_pages,
            final(self).base(None),
            final(self).config == old(self).config,
            final(self).stats.entries == old(self).stats.entries,
            final(self).stats.pages <= old(self).stats.pages + btree_model::extent_pages(value@.len() as int),
            final(self).meta().root == old(self).meta().root,
            final(self).model@.map == old(self).model@.map,
            final(self).model@.tops == old(self).model@.tops,
            final(self).model@.leaves == old(self).model@.leaves,
            forall|q: int| #[trigger]
                btree_model::is_tree(old(self).model@, q) ==> btree_model::is_tree(final(self).model@, q)
                    && final(self).model@.kind[q] == old(self).model@.kind[q] && final(self).img()[q] == old(
                    self,
                ).img()[q],
            page::cell_ok(true, c@),
            c@.len() + 2 <= page::page_room(true),
            page::key_of(true, c@) == key@,
            btree_model::value_of(final(self).img(), c@) == value@,
            btree_model::extent_owned(final(self).model@, c@),
            btree_model::form_ok(c@),
            c@.len() == btree_model::cell_size(key@.len() as int, value@.len() as int),
            final(self).keeps_pages(old(self)),
            final(self).stats.pages >= old(self).stats.pages,
            key@.len() + value@.len() + 6 <= MAX_INLINE ==> *final(self) == *old(self),
            forall|q: int| #[trigger]
                btree_model::is_tree(final(self).model@, q) ==> btree_model::is_tree(old(self).model@, q),
    {
        if key.len() + value.len() + 6 > MAX_INLINE {
            let ghost n = btree_model::extent_pages(value@.len() as int);
            let start: u64 = self.write_extent(value, Ghost(key@));
            let raw: u32 = value.len() as u32 + page::OVFL_FLAG;
            let mut payload: Vec<u8> = Vec::new();
            le::push_u64(&mut payload, start);
            assert(payload@ =~= le::le8(start));
            proof {
                page::lemma_leaf_cell(key@, raw, payload@);
                assert forall|i: int| 0 <= i < 8 implies #[trigger] le::le8(start)[i] == payload@[0 + i] by {}
                le::lemma_le8(payload@, 0, start);
                let c = page::leaf_cell(key@, raw, payload@);
                assert(page::extent_of(c) == start);
                assert forall|q: int| start <= q < start + n implies #[trigger] self.model@.kind.contains_key(q)
                    && self.model@.kind[q] == Kind::Extent(key@) by {}
            }
            page::write_leaf_entry_raw(key, raw, payload.as_slice())
        } else {
            proof {
                page::lemma_leaf_cell(key@, value@.len() as u32, value@);
            }
            page::write_leaf_entry_raw(key, value.len() as u32, value)
        }
    }

    /// Overwrites the value of slot `i` of leaf `p` by one of the same length.
    fn leaf_overwrite(&mut self, p: u64, i: usize, value: &[u8])
        requires
            old(self).wf(),
            btree_model::is_leaf(old(self).model@, p as int),
            i < page::page_count(old(self).img()[p as int]),
            page::raw_of(page::cells(true, old(self).img()[p as int])[i as int]) < page::OVFL_FLAG,
            value@.len() == page::raw_of(page::cells(true, old(self).img()[p as int])[i as int]),
        ensures
            final(self).wf(),
            final(self).config == old(self).config,
            final(self).model@.map == old(self).model@.map.insert(
                page::key_of(true, page::cells(true, old(self).img()[p as int])[i as int]),
                value@,
            ),
            final(self).model@.kind == old(self).model@.kind,
            final(self).model@.tops == old(self).model@.tops,
            final(self).stats == old(self).stats,
            final(self).model@.leaves == old(self).model@.leaves,
            forall|q: int| 0 <= q < old(self).img().len() && q != p ==> #[trigger] final(self).img()[q] == old(
                self,
            ).img()[q],
            page::cells(true, final(self).img()[p as int]) == page::cells(true, old(self).img()[p as int]).update(
                i as int,
                page::leaf_cell(
                    page::key_of(true, page::cells(true, old(self).img()[p as int])[i as int]),
                    value@.len() as u32,
                    value@,
                ),
            ),
    {
        let ghost m = self.model@;
        let ghost img = self.img();
        let ghost cs = page::cells(true, img[p as int]);
        let ghost c = cs[i as int];
        let ghost key = page::key_of(true, c);
        let ghost c2 = page::leaf_cell(key, page::raw_of(c), value@);
        proof {
            reveal(btree_model::leaf_inv);
            assert(btree_model::leaf_inv(img, m, p as int));
            page::lemma_page_cells(true, img[p as int]);
            assert(btree_model::entry_ok(img, m, btree_model::node(m, p as int), c));
            page::lemma_leaf_cell(key, page::raw_of(c), value@);
            assert(page::cell_ok(true, c));
            page::lemma_used_update(cs, i as int, c2);
        }
        self.page_overwrite(p, i, value);
        self.model = Ghost(Model { map: m.map.insert(key, value@), ..m });
        proof {
            let img2 = self.img();
            let m2 = self.model@;
            btree_model::lemma_leaf_overwritten(img, m, img2, m2, p as int, i as int, c2);
            le::lemma_u64_same(img[p as int], img2[p as int], 8, 8);
            le::lemma_u64_same(img[p as int], img2[p as int], 16, 16);
            page::lemma_page_cells(true, img2[p as int]);
            btree_model::lemma_leaf_update(img, m, img2, m2, self.stats.pages as int, p as int, key);
            btree_model::lemma_leaf_total(img, m, img2, self.stats.pages as int, p as int);
            assert(m.map.insert(key, value@).dom() =~= m.map.dom());
        }
    }

    fn page_overwrite(&mut self, p: u64, i: usize, value: &[u8])
        requires
            p < old(self).img().len(),
            page::page_ok(true, old(self).img()[p as int]),
            i < page::page_count(old(self).img()[p as int]),
            page::raw_of(page::cells(true, old(self).img()[p as int])[i as int]) < page::OVFL_FLAG,
            value@.len() == page::raw_of(page::cells(true, old(self).img()[p as int])[i as int]),
        ensures
            final(self).only_page(old(self), p as int),
            page::page_ok(true, final(self).img()[p as int]),
            page::cells(true, final(self).img()[p as int]) == page::cells(true, old(self).img()[p as int]).update(
                i as int,
                page::leaf_cell(
                    page::key_of(true, page::cells(true, old(self).img()[p as int])[i as int]),
                    page::raw_of(page::cells(true, old(self).img()[p as int])[i as int]),
                    value@,
                ),
            ),
            page::same_header(true, old(self).img()[p as int], final(self).img()[p as int]),
    {
        assert(self.pages@.len() == self.pages.len());
        page::overwrite_payload(&mut self.pages[p as usize], i, value);
    }

    /// Inserts or overwrites an entry at the place a descent found for its key. Gives
    /// whether the key was there.
    fn insert_bytes(&mut self, key: &[u8], value: &[u8], hint: DescentHint) -> (existed: bool)
        requires
            old(self).wf(),
            hint.ok(old(self), key@),
            key@.len() <= btree_model::MAX_KEY,
            value@.len() < page::OVFL_FLAG,
            old(self).has_room(value@.len() as int),
        ensures
            final(self).wf(),
            final(self).config == old(self).config,
            final(self).model@.map == old(self).model@.map.insert(key@, value@),
            existed == old(self).model@.map.contains_key(key@),
            old(self).grown(final(self), key@, value@),
    {
        let ghost start = *self;
        let ghost x = btree_model::leaf_index(self.model@, hint.leaf_page as int);
        let p: u64 = hint.leaf_page;
        let slot: usize = hint.slot;
        let existed: bool = hint.found;
        proof {
            assert(btree_model::leaf_inv(self.img(), self.model@, p as int));
            btree_model::lemma_lookup(self.img(), self.model@, p as int, key@, slot as int, existed);
            self.lemma_root_is_tree();
            btree_model::lemma_leaf_index(self.img(), self.model@, p as int);
            reveal(btree_model::leaf_inv);
            page::lemma_page_cells(true, self.img()[p as int]);
            assert(self.leaf_cells()[x] == page::cells(true, self.img()[p as int]));
            lex::order_laws();
        }
        if existed {
            let raw: u32 = self.raw_at(p, slot);
            if raw < page::OVFL_FLAG && key.len() + value.len() + 6 <= MAX_INLINE && raw as usize == value.len() {
                proof {
                    page::lemma_leaf_cell(key@, value@.len() as u32, value@);
                }
                self.leaf_overwrite(p, slot, value);
                proof {
                    let c = page::leaf_cell(key@, value@.len() as u32, value@);
                    start.lemma_cells_at(self, x);
                    assert(btree_model::entry_put(start.leaf_cells(), self.leaf_cells(), x, slot as int, c));
                }
                return true;
            }
            self.delete_at(p, slot);
            proof {
                btree_model::lemma_slot_removed(start.img()[p as int], self.img()[p as int], key@, slot as int);
                btree_model::lemma_path_frame(
                    start.img(),
                    start.model@,
                    self.img(),
                    self.model@,
                    hint.path@,
                    p as int,
                );
            }
        }
        let ghost mid = *self;
        assert(btree_model::is_tree(start.model@, p as int));
        assert(!self.model@.map.contains_key(key@));
        assert(self.height() == start.height());
        let c: Vec<u8> = self.make_cell(key, value);
        proof {
            assert(btree_model::is_tree(mid.model@, p as int));
            mid.lemma_root_is_tree();
            btree_model::lemma_path_frame(mid.img(), mid.model@, self.img(), self.model@, hint.path@, p as int);
            assert(self.height() == start.height());
        }
        let hint2: DescentHint = DescentHint { leaf_page: p, path: hint.path, slot, found: false };
        let ghost s2 = *self;
        self.place_cell(hint2, &c);
        let ghost s3 = *self;
        proof {
            assert forall|q: int| #[trigger] btree_model::is_tree(start.model@, q) && q != p implies s2.img()[q]
                == start.img()[q] by {
                assert(btree_model::is_tree(mid.model@, q));
            }
            start.lemma_cells_at(&s2, x);
            btree_model::lemma_index_at(s2.img(), s2.model@, x);
            assert(btree_model::is_tree(mid.model@, p as int));
            assert(s2.model@.map.insert(key@, value@) =~= start.model@.map.insert(key@, value@));
            let d = s2.model@.map.dom();
            assert(s2.model@.map.insert(key@, value@).dom() =~= d.insert(key@));
            assert(d.insert(key@).len() == d.len() + 1);
            if existed {
                assert(start.model@.map.dom().remove(key@).len() == start.model@.map.dom().len() - 1);
            }
        }
        let n: usize = self.stats.entries + 1;
        self.write_entries(n);
        proof {
            s3.lemma_cells_same_pages(self);
            let bs = start.leaf_cells();
            let cs = bs[x];
            if existed {
                assert(page::key_of(true, cs[slot as int]) == key@);
                assert(s2.leaf_cells() == bs.update(x, cs.remove(slot as int)));
            } else {
                assert(s2.leaf_cells() =~= bs);
                if slot < cs.len() {
                    assert(page::key_of(true, cs[slot as int]) != key@);
                }
            }
            assert(btree_model::entry_put(bs, self.leaf_cells(), x, slot as int, c@));
        }
        existed
    }

    /// The cells of the leaves where leaf `x` alone has changed.
    proof fn lemma_cells_at(&self, to: &BPlusTree, x: int)
        requires
            self.base(None),
            0 <= x < self.model@.leaves.len(),
            to.model@.leaves == self.model@.leaves,
            forall|q: int| #[trigger]
                btree_model::is_tree(self.model@, q) && q != self.model@.leaves[x] ==> to.img()[q] == self.img()[q],
        ensures
            to.leaf_cells() == self.leaf_cells().update(x, page::cells(true, to.img()[self.model@.leaves[x]])),
    {
        let ls = self.model@.leaves;
        assert forall|j: int| 0 <= j < ls.len() && j != x implies page::cells(true, to.img()[#[trigger] ls[j]])
            == page::cells(true, self.img()[ls[j]]) by {
            self.lemma_leaf_facts(j);
            btree_model::lemma_index_at(self.img(), self.model@, j);
            btree_model::lemma_index_at(self.img(), self.model@, x);
            assert(btree_model::is_tree(self.model@, ls[j]));
        }
        btree_model::lemma_blocks_one(self.img(), ls, to.img(), x);
    }

    /// The cells of the leaves where no page but the meta page has changed.
    proof fn lemma_cells_same_pages(&self, to: &BPlusTree)
        requires
            self.base(None),
            to.model == self.model,
            forall|q: int| 0 < q < self.img().len() ==> #[trigger] to.img()[q] == self.img()[q],
        ensures
            to.leaf_cells() == self.leaf_cells(),
    {
        let ls = self.model@.leaves;
        assert forall|j: int| 0 <= j < ls.len() implies #[trigger] to.leaf_cells()[j] == self.leaf_cells()[j] by {
            self.lemma_leaf_facts(j);
            assert(self.model@.kind.contains_key(ls[j]));
            assert(to.img()[ls[j]] == self.img()[ls[j]]);
        }
        assert(to.leaf_cells() =~= self.leaf_cells());
    }

    /// The value length field of slot `i` of a leaf.
    fn raw_at(&self, p: u64, i: usize) -> (raw: u32)
        requires
            self.base(None),
            btree_model::is_leaf(self.model@, p as int),
            i < page::page_count(self.img()[p as int]),
        ensures
            raw == page::raw_of(page::cells(true, self.img()[p as int])[i as int]),
    {
        proof {
            reveal(btree_model::leaf_inv);
            assert(btree_model::leaf_inv(self.img(), self.model@, p as int));
        }
        let c: Vec<u8> = page::copy_cell(self.page_bytes(p), true, i);
        le::rd_u32(c.as_slice(), 2)
    }

    // ---- building from sorted entries -------------------------------------

    /// Resets to one empty leaf.
    fn do_clear(&mut self)
        requires
            old(self).img().len() >= 2,
            forall|i: int| 0 <= i < old(self).img().len() ==> (#[trigger] old(self).img()[i]).len() == PAGE_SIZE,
            le::u32_at(old(self).img()[0], 0) == MAGIC,
        ensures
            final(self).wf(),
            final(self)@ == Map::<Seq<u8>, Seq<u8>>::empty(),
            final(self).config == old(self).config,
            final(self).stats == (BPlusTreeStats {
                entries: 0,
                pages: 2,
                free_pages: 0,
                leaf_pages: 1,
                leaf_entry_bytes: 0,
            }),
            final(self).img().len() == old(self).img().len(),
            final(self).model@ == btree_model::fresh_model(),
            page::cells(true, final(self).img()[1]).len() == 0,
    {
        self.put_meta(META_ROOT, 1);
        self.put_meta(META_FREE_HEAD, 0);
        self.put_meta(META_PAGES, 2);
        self.put_meta(META_ENTRIES, 0);
        self.put_meta(META_RIGHTMOST_LEAF, 1);
        self.put_meta(META_LEAF_PAGES, 1);
        self.put_meta(META_LEAF_ENTRY_BYTES, 0);
        self.put_meta(META_FREE_PAGES, 0);
        let ghost mid = *self;
        self.init_leaf(1, true);
        self.stats = BPlusTreeStats { entries: 0, pages: 2, free_pages: 0, leaf_pages: 1, leaf_entry_bytes: 0 };
        self.model = Ghost(btree_model::fresh_model());
        proof {
            let img = self.img();
            assert(img[0] == mid.img()[0]);
            assert forall|i: int| 0 <= i < img.len() implies (#[trigger] img[i]).len() == PAGE_SIZE by {
                if i == 1 {
                    page::lemma_page_cells(true, img[1]);
                } else {
                    assert(img[i] == mid.img()[i]);
                }
            }
            btree_model::lemma_fresh(img);
        }
    }

    /// An empty leaf behind the last one, `cur`, for keys from `sep` on. Both are topmost.
    #[verifier::rlimit(40)]
    fn append_leaf(&mut self, cur: u64, sep: &Vec<u8>) -> (right: u64)
        requires
            old(self).base(None),
            old(self).stats.pages < MAX_PAGES,
            btree_model::is_leaf(old(self).model@, cur as int),
            old(self).model@.leaves.last() == cur,
            old(self).model@.tops.last() == cur,
            sep@.len() <= btree_model::MAX_KEY,
            btree_model::node(old(self).model@, cur as int).lo is Some ==> lex::lt(
                btree_model::node(old(self).model@, cur as int).lo->0,
                sep@,
            ),
            forall|i: int|
                0 <= i < page::cells(true, old(self).img()[cur as int]).len() ==> lex::lt(
                    page::key_of(true, #[trigger] page::cells(true, old(self).img()[cur as int])[i]),
                    sep@,
                ),
        ensures
            final(self).stats.free_pages <= old(self).stats.free_pages,
            final(self).base(None),
            final(self).config == old(self).config,
            final(self).stats.pages <= old(self).stats.pages + 1,
            final(self).stats.entries == old(self).stats.entries,
            final(self).model@.map == old(self).model@.map,
            final(self).model@.leaves == old(self).model@.leaves.push(right as int),
            final(self).model@.tops == old(self).model@.tops.push(right as int),
            btree_model::is_leaf(final(self).model@, right as int),
            !btree_model::is_tree(old(self).model@, right as int),
            btree_model::node(final(self).model@, right as int).lo == Some(sep@),
            btree_model::node(final(self).model@, right as int).hi is None,
            page::cells(true, final(self).img()[right as int]).len() == 0,
            final(self).keeps_pages(old(self)),
            forall|q: int| #[trigger]
                btree_model::is_inner(final(self).model@, q) ==> btree_model::is_inner(old(self).model@, q),
            forall|q: int| #[trigger]
                btree_model::is_leaf(old(self).model@, q) ==> page::cells(true, final(self).img()[q]) == page::cells(
                    true,
                    old(self).img()[q],
                ),
            forall|q: int| #[trigger]
                btree_model::is_extent(old(self).model@, q) ==> btree_model::is_extent(final(self).model@, q)
                    && final(self).model@.kind[q] == old(self).model@.kind[q] && final(self).img()[q] == old(
                    self,
                ).img()[q],
            forall|q: int| #[trigger]
                btree_model::is_tree(old(self).model@, q) ==> btree_model::is_tree(final(self).model@, q)
                    && btree_model::node(final(self).model@, q).lo == btree_model::node(old(self).model@, q).lo
                    && btree_model::node(final(self).model@, q).level == btree_model::node(old(self).model@, q).level,
    {
        let ghost m0 = self.model@;
        let ghost img0 = self.img();
        let right: u64 = self.alloc_page(Ghost(None));
        let ghost m = self.model@;
        let ghost img = self.img();
        let ghost n = self.stats.pages as int;
        let ghost x = m.leaves.len() - 1;
        proof {
            assert(m.kind.contains_key(cur as int));
            assert(img[cur as int] == img0[cur as int]);
            reveal(btree_model::chain_inv);
            assert(btree_model::link_ok(img, m, x));
            reveal(btree_model::leaf_inv);
            assert(btree_model::leaf_inv(img, m, cur as int));
            page::lemma_page_cells(true, img[cur as int]);
        }
        self.init_leaf(right, false);
        let ghost s1 = *self;
        proof {
            page::lemma_page_cells(true, s1.img()[right as int]);
        }
        self.put64(cur, 8, right);
        let ghost s2 = *self;
        self.put64(right, 16, cur);
        let ghost s3 = *self;
        self.put_meta(META_RIGHTMOST_LEAF, right);
        let ghost s4 = *self;
        proof {
            let cb = cur as int;
            let rb = right as int;
            assert(s1.img()[cb] == img[cb]);
            assert(s4.img()[cb] == s2.img()[cb]);
            assert(s4.img()[rb] == s3.img()[rb]);
            assert(s2.img()[rb] == s1.img()[rb]);
            page::lemma_same_body(true, img[cb], s4.img()[cb]);
            page::lemma_same_body(true, s1.img()[rb], s4.img()[rb]);
            assert forall|i: int| 0 <= i < 8 implies #[trigger] img[cb][16 + i] == s4.img()[cb][16 + i] by {}
            le::lemma_u64_same(img[cb], s4.img()[cb], 16, 16);
            assert forall|i: int| 0 <= i < 8 implies #[trigger] s1.img()[rb][8 + i] == s4.img()[rb][8 + i] by {}
            le::lemma_u64_same(s1.img()[rb], s4.img()[rb], 8, 8);
            assert(s3.img()[0] == img[0]);
            assert(btree_model::split_pages(img, s4.img(), cb, rb)) by {
                assert forall|q: int| 0 < q < img.len() && q != cb && q != rb implies #[trigger] s4.img()[q] == img[q] by {
                    assert(s3.img()[q] == s2.img()[q]);
                    assert(s2.img()[q] == s1.img()[q]);
                }
                assert forall|q: int| 0 <= q < s4.img().len() implies (#[trigger] s4.img()[q]).len() == PAGE_SIZE by {
                    if q != 0 && q != cb && q != rb {
                        assert(s4.img()[q] == img[q]);
                    }
                }
            }
            btree_model::lemma_split_total(img, m, s4.img(), n, cb, rb, x);
            assert(page::used(page::cells(true, s4.img()[rb])) == 0);
        }
        let count: u64 = self.stats.leaf_pages + 1;
        self.put_meta(META_LEAF_PAGES, count);
        self.stats.leaf_pages = count;
        let ghost m2 = btree_model::split_model(m, cur as int, right as int, x, sep@, m.map);
        self.model = Ghost(Model { tops: m.tops.push(right as int), ..m2 });
        proof {
            let img2 = self.img();
            let cb = cur as int;
            let rb = right as int;
            assert(btree_model::split_pages(img, img2, cb, rb)) by {
                assert(img2[cb] == s4.img()[cb]);
                assert(img2[rb] == s4.img()[rb]);
                assert forall|q: int| 0 < q < img.len() && q != cb && q != rb implies #[trigger] img2[q] == img[q] by {
                    assert(s4.img()[q] == img[q]);
                }
                assert forall|q: int| 0 <= q < img2.len() implies (#[trigger] img2[q]).len() == PAGE_SIZE by {
                    if q != 0 {
                        assert(img2[q] == s4.img()[q]);
                    }
                }
            }
            lex::order_laws();
            assert(btree_model::extents_kept(img, m, img2, m2, None));
            btree_model::lemma_tail_leaf(img, m, img2, m2, cb, rb, sep@);
            btree_model::lemma_leaf_split(img, m, img2, m2, n, cb, rb, x, sep@, None);
            btree_model::lemma_split_total(img, m, img2, n, cb, rb, x);
            assert(m.leaves.insert(x + 1, rb) =~= m.leaves.push(rb));
            btree_model::lemma_pend_to_tops(img2, m2, n, cb, rb);
            assert forall|q: int| #[trigger] btree_model::is_leaf(m0, q) implies page::cells(true, img2[q])
                == page::cells(true, img0[q]) by {
                assert(m.kind.contains_key(q));
                if q != cb {
                    assert(img2[q] == img[q]);
                }
            }
            assert forall|q: int| #[trigger] btree_model::is_extent(m0, q) implies btree_model::is_extent(m2, q)
                && m2.kind[q] == m0.kind[q] && img2[q] == img0[q] by {
                assert(m.kind.contains_key(q));
                assert(img2[q] == img[q]);
            }
            assert forall|q: int| #[trigger] btree_model::is_tree(m0, q) implies btree_model::is_tree(m2, q)
                && btree_model::node(m2, q).lo == btree_model::node(m0, q).lo && btree_model::node(m2, q).level
                == btree_model::node(m0, q).level by {
                assert(m.kind.contains_key(q));
            }
        }
        right
    }

    /// Builds the internal levels over sibling pages, which are the topmost ones, packing
    /// each new page as full as it goes. `first_keys` and `last_keys` hold the smallest
    /// and the largest key below each sibling; the separator between two siblings comes
    /// after the largest key of the left one.
    #[verifier::rlimit(60)]
    fn build_internal_levels(&mut self, children: Vec<u64>, first_keys: Vec<Vec<u8>>, last_keys: Vec<Vec<u8>>)
        requires
            old(self).base(None),
            children@.len() >= 1,
            old(self).model@.tops == btree_model::ints(children@),
            btree_model::level_ok(
                old(self).model@,
                children@,
                page::deep(first_keys@),
                page::deep(last_keys@),
                btree_model::node(old(self).model@, children@[0] as int).level,
                0,
            ),
            btree_model::spans_ok(page::deep(first_keys@), page::deep(last_keys@)),
            old(self).stats.pages + 2 * children@.len() <= MAX_PAGES,
        ensures
            final(self).stats.free_pages <= old(self).stats.free_pages,
            final(self).whole(),
            final(self).config == old(self).config,
            final(self).stats.entries == old(self).stats.entries,
            final(self).same_leaves(old(self)),
            final(self).keeps_pages(old(self)),
            final(self).drew(old(self)),
            final(self).inner_kept(old(self)),
            final(self).stats.pages + 2 <= old(self).stats.pages + 2 * children@.len(),
            forall|q: int| #[trigger]
                btree_model::is_inner(final(self).model@, q) ==> btree_model::is_inner(old(self).model@, q)
                    || final(self).brim(q),
    {
        let ghost start = *self;
        let ghost first = children@.len();
        let mut children: Vec<u64> = children;
        let mut first_keys: Vec<Vec<u8>> = first_keys;
        let mut last_keys: Vec<Vec<u8>> = last_keys;
        let ghost mut level: nat = btree_model::node(self.model@, children@[0] as int).level;
        while children.len() > 1
            invariant
                self.stats.free_pages <= start.stats.free_pages,
                self.base(None),
                children@.len() >= 1,
                self.model@.tops == btree_model::ints(children@),
                btree_model::level_ok(
                    self.model@,
                    children@,
                    page::deep(first_keys@),
                    page::deep(last_keys@),
                    level,
                    0,
                ),
                btree_model::spans_ok(page::deep(first_keys@), page::deep(last_keys@)),
                self.stats.pages + 2 * children@.len() <= MAX_PAGES,
                self.config == start.config,
                self.stats.entries == start.stats.entries,
                self.same_leaves(&start),
                self.keeps_pages(&start),
                self.drew(&start),
                self.inner_kept(&start),
                self.stats.pages + 2 * children@.len() <= start.stats.pages + 2 * first,
                forall|q: int| #[trigger]
                    btree_model::is_inner(self.model@, q) ==> btree_model::is_inner(start.model@, q) || self.brim(q),
            decreases children@.len(),
        {
            let ghost below = *self;
            let (a, b, c) = self.build_level(&children, &first_keys, &last_keys, Ghost(level));
            proof {
                below.lemma_same_leaves_trans(&start, self);
                level = level + 1;
                assert(self.inner_kept(&start)) by {
                    assert forall|q: int| #[trigger] btree_model::is_inner(start.model@, q) implies {
                        &&& btree_model::is_inner(self.model@, q)
                        &&& btree_model::node(self.model@, q).hi == btree_model::node(start.model@, q).hi
                        &&& page::cells(false, self.img()[q]) == page::cells(false, start.img()[q])
                    } by {
                        assert(btree_model::is_inner(below.model@, q));
                    }
                }
                assert forall|q: int| #[trigger]
                    btree_model::is_inner(self.model@, q) implies btree_model::is_inner(start.model@, q) || self.brim(
                    q,
                ) by {
                    if btree_model::is_inner(below.model@, q) {
                        assert(btree_model::is_inner(start.model@, q) || below.brim(q));
                    }
                }
            }
            children = a;
            first_keys = b;
            last_keys = c;
        }
        let root: u64 = children[0];
        proof {
            assert(self.model@.tops[0] == root);
            assert(btree_model::is_tree(self.model@, children@[0] as int));
        }
        let ghost s1 = *self;
        self.set_flag(root, true);
        let ghost s2 = *self;
        self.set_root(root);
        proof {
            s1.lemma_same_leaves_trans(&start, &s2);
            s2.lemma_same_leaves_trans(&start, self);
            assert forall|q: int| #[trigger] btree_model::is_inner(s1.model@, q) implies page::cells(
                false,
                self.img()[q],
            ) == page::cells(false, s1.img()[q]) by {
                assert(s2.img()[q] == self.img()[q]);
                if q == root {
                    assert(btree_model::inner_inv(s1.img(), s1.model@, None, q));
                    assert(page::page_ok(false, s1.img()[q])) by {
                        reveal(btree_model::inner_inv);
                    }
                    page::lemma_same_body(false, s1.img()[q], s2.img()[q]);
                }
            }
        }
    }

    /// One level of internal pages over sibling pages.
    #[verifier::rlimit(60)]
    fn build_level(
        &mut self,
        children: &Vec<u64>,
        first_keys: &Vec<Vec<u8>>,
        last_keys: &Vec<Vec<u8>>,
        Ghost(level): Ghost<nat>,
    ) -> (r: (Vec<u64>, Vec<Vec<u8>>, Vec<Vec<u8>>))
        requires
            old(self).base(None),
            children@.len() >= 2,
            old(self).model@.tops == btree_model::ints(children@),
            btree_model::level_ok(
                old(self).model@,
                children@,
                page::deep(first_keys@),
                page::deep(last_keys@),
                level,
                0,
            ),
            btree_model::spans_ok(page::deep(first_keys@), page::deep(last_keys@)),
            old(self).stats.pages + 2 * children@.len() <= MAX_PAGES,
        ensures
            final(self).stats.free_pages <= old(self).stats.free_pages,
            final(self).base(None),
            1 <= r.0@.len() < children@.len(),
            2 * r.0@.len() <= children@.len() + 1,
            final(self).stats.pages <= old(self).stats.pages + r.0@.len(),
            final(self).model@.tops == btree_model::ints(r.0@),
            btree_model::level_ok(
                final(self).model@,
                r.0@,
                page::deep(r.1@),
                page::deep(r.2@),
                level + 1,
                0,
            ),
            btree_model::spans_ok(page::deep(r.1@), page::deep(r.2@)),
            final(self).stats.pages + 2 * r.0@.len() <= MAX_PAGES,
            final(self).config == old(self).config,
            final(self).stats.entries == old(self).stats.entries,
            final(self).same_leaves(old(self)),
            final(self).keeps_pages(old(self)),
            final(self).drew(old(self)),
            final(self).inner_kept(old(self)),
            forall|q: int| #[trigger]
                btree_model::is_inner(final(self).model@, q) ==> btree_model::is_inner(old(self).model@, q)
                    || final(self).brim(q),
    {
        let ghost start = *self;
        let ghost f = page::deep(first_keys@);
        let ghost l = page::deep(last_keys@);
        let len: usize = children.len();
        let mut next_pages: Vec<u64> = Vec::new();
        let mut next_first: Vec<Vec<u8>> = Vec::new();
        let mut next_last: Vec<Vec<u8>> = Vec::new();
        let mut i: usize = 0;
        proof {
            assert(btree_model::ints(next_pages@) + btree_model::ints(children@).skip(0) =~= btree_model::ints(
                children@,
            ));
        }
        while i < len
            invariant
                self.stats.free_pages <= start.stats.free_pages,
                self.base(None),
                0 <= i <= len,
                len == children@.len(),
                len >= 2,
                f == page::deep(first_keys@),
                l == page::deep(last_keys@),
                self.model@.tops == btree_model::ints(next_pages@) + btree_model::ints(children@).skip(i as int),
                btree_model::level_ok(self.model@, children@, f, l, level, i as int),
                btree_model::spans_ok(f, l),
                btree_model::level_ok(
                    self.model@,
                    next_pages@,
                    page::deep(next_first@),
                    page::deep(next_last@),
                    level + 1,
                    0,
                ),
                btree_model::spans_ok(page::deep(next_first@), page::deep(next_last@)),
                i > 0 ==> next_pages@.len() > 0 && page::deep(next_last@).last() == l[i - 1],
                i == 0 ==> next_pages@.len() == 0,
                i < len ==> 2 * next_pages@.len() <= i,
                2 * next_pages@.len() <= i + 1,
                self.stats.pages <= start.stats.pages + next_pages@.len(),
                start.stats.pages + 2 * len <= MAX_PAGES,
                self.config == start.config,
                self.stats.entries == start.stats.entries,
                self.same_leaves(&start),
                self.keeps_pages(&start),
                self.drew(&start),
                self.inner_kept(&start),
                forall|t: int| 0 <= t < next_pages@.len() ==> #[trigger] self.brim(next_pages@[t] as int),
                forall|q: int| #[trigger]
                    btree_model::is_inner(self.model@, q) ==> btree_model::is_inner(start.model@, q)
                        || btree_model::ints(next_pages@).contains(q),
            decreases len - i,
        {
            let ghost before = *self;
            let ghost pages0 = next_pages@;
            let ghost gs = i as int;
            let ghost k = next_pages@.len() as int;
            proof {
                assert(self.model@.tops[k] == children@[i as int]) by {
                    assert(btree_model::ints(children@).skip(i as int)[0] == children@[i as int] as int);
                }
                before.lemma_forest_distinct(next_pages@, children@, i as int);
            }
            let current: u64 = self.wrap_top(children[i], Ghost(k));
            proof {
                before.lemma_same_leaves_trans(&start, self);
                assert(f[gs] == first_keys@[gs]@);
            }
            let fk: Vec<u8> = le::copy_range(first_keys[i].as_slice(), 0, first_keys[i].len());
            assert(fk@ =~= f[gs]);
            let ghost nf0 = page::deep(next_first@);
            let ghost nl0 = page::deep(next_last@);
            next_first.push(fk);
            next_pages.push(current);
            i = i + 1;
            proof {
                assert(page::deep(next_first@) =~= nf0.push(f[gs]));
                assert(self.model@.tops =~= btree_model::ints(next_pages@) + btree_model::ints(children@).skip(
                    i as int,
                ));
                assert forall|t: int| i <= t < len implies btree_model::is_tree(self.model@, #[trigger] children@[t] as int)
                    && self.model@.kind[children@[t] as int] == before.model@.kind[children@[t] as int] by {
                    assert(btree_model::is_tree(before.model@, children@[t] as int));
                }
                assert forall|t: int| 0 <= t < k implies btree_model::is_tree(self.model@, #[trigger] pages0[t] as int)
                    && self.model@.kind[pages0[t] as int] == before.model@.kind[pages0[t] as int] by {
                    assert(btree_model::is_tree(before.model@, pages0[t] as int));
                }
                assert(lex::le(f[gs], l[gs]));
                assert(page::used(page::cells(false, self.img()[current as int])) == 0);
                reveal(btree_model::inner_inv);
                assert(btree_model::is_inner(self.model@, current as int));
                assert(btree_model::inner_inv(self.img(), self.model@, None, current as int));
                reveal(btree_model::tops_inv);
                assert(btree_model::top_ok(before.model@, None, k));
                btree_model::lemma_ints_push(pages0, current);
                self.lemma_inner_trans(&before, &start, current as int);
                assert forall|t: int| 0 <= t < k implies self.img()[#[trigger] pages0[t] as int]
                    == before.img()[pages0[t] as int] by {
                    assert(btree_model::is_tree(before.model@, pages0[t] as int));
                }
                assert forall|q: int| #[trigger]
                    btree_model::is_inner(self.model@, q) implies btree_model::is_inner(start.model@, q)
                    || btree_model::ints(next_pages@).contains(q) by {
                    let is = btree_model::ints(pages0);
                    if q == current {
                        assert(is.push(q)[k] == q);
                    } else if is.contains(q) {
                        let t = choose|t: int| 0 <= t < is.len() && is[t] == q;
                        assert(is.push(current as int)[t] == q);
                    }
                }
            }
            let ghost nd0 = btree_model::node(self.model@, current as int);
            proof {
                if i == len {
                    self.lemma_top_last();
                    assert(self.model@.tops =~= btree_model::ints(next_pages@));
                    assert(self.model@.tops.last() == next_pages@[k]);
                }
            }
            while i < len
                invariant
                    self.stats.free_pages <= start.stats.free_pages,
                    self.base(None),
                    0 <= gs < i <= len,
                    len == children@.len(),
                    f == page::deep(first_keys@),
                    l == page::deep(last_keys@),
                    k == pages0.len(),
                    next_pages@ == pages0.push(current),
                    self.model@.tops == btree_model::ints(next_pages@) + btree_model::ints(children@).skip(i as int),
                    btree_model::level_ok(self.model@, children@, f, l, level, i as int),
                    btree_model::spans_ok(f, l),
                    forall|t: int| 0 <= t < k ==> btree_model::is_tree(self.model@, #[trigger] pages0[t] as int)
                        && self.model@.kind[pages0[t] as int] == before.model@.kind[pages0[t] as int],
                    btree_model::is_tree(self.model@, current as int),
                    btree_model::node(self.model@, current as int).level == level + 1,
                    btree_model::node(self.model@, current as int).lo == nd0.lo,
                    btree_model::node(self.model@, current as int).parent == 0,
                    gs > 0 ==> nd0.lo == Some(lex::separator(l[gs - 1], f[gs])),
                    gs == 0 ==> nd0.lo is None,
                    lex::le(f[gs], l[i - 1]),
                    page::page_ok(false, self.img()[current as int]),
                    (page::cells(false, self.img()[current as int]).len() > 0) == (i - 1 > gs),
                    page::cells(false, self.img()[current as int]).len() > 0 ==> page::key_of(
                        false,
                        page::cells(false, self.img()[current as int]).last(),
                    ) == lex::separator(l[i - 2], f[i - 1]),
                    i - 1 == gs ==> page::used(page::cells(false, self.img()[current as int])) == 0,
                    self.stats.pages <= start.stats.pages + next_pages@.len(),
                    self.config == start.config,
                    self.stats.entries == start.stats.entries,
                    self.same_leaves(&start),
                    self.keeps_pages(&start),
                    self.drew(&start),
                    self.inner_kept(&start),
                    !btree_model::is_inner(start.model@, current as int),
                    i == len ==> self.brim(current as int),
                    forall|t: int| 0 <= t < k ==> self.img()[#[trigger] pages0[t] as int]
                        == before.img()[pages0[t] as int],
                    forall|q: int| #[trigger]
                        btree_model::is_inner(self.model@, q) ==> btree_model::is_inner(start.model@, q)
                            || btree_model::ints(next_pages@).contains(q),
                ensures
                    i == len || i - 1 > gs,
                    self.brim(current as int),
                decreases len - i,
            {
                let ghost prev = *self;
                proof {
                    assert(l[i - 1] == last_keys@[i - 1]@ && f[i as int] == first_keys@[i as int]@);
                    assert(lex::lt(l[i - 1], f[i as int]));
                    assert(lex::le(f[i as int], l[i as int]) && f[i as int].len() <= btree_model::MAX_KEY);
                    lex::separator_between(l[i - 1], f[i as int]);
                }
                let sep: Vec<u8> = lex::truncated_separator(last_keys[i - 1].as_slice(), first_keys[i].as_slice());
                let spare: usize = page::free_space(self.page_bytes(current), false);
                if sep.len() + 12 > spare {
                    proof {
                        page::lemma_page_cells(false, self.img()[current as int]);
                        self.lemma_top_ends(k, children@[i as int] as int);
                        assert(btree_model::ints(children@).skip(i as int)[0] == children@[i as int]);
                        assert(self.model@.tops[k] == next_pages@[k]);
                    }
                    break;
                }
                proof {
                    self.lemma_adopt_ready(next_pages@, children@, f, l, level, i as int, gs, current as int, sep@);
                    prev.lemma_forest_distinct(next_pages@, children@, i as int);
                }
                self.adopt_top(current, children[i], &sep, Ghost(k));
                i = i + 1;
                proof {
                    prev.lemma_same_leaves_trans(&start, self);
                    assert(self.model@.tops =~= btree_model::ints(next_pages@) + btree_model::ints(children@).skip(
                        i as int,
                    ));
                    assert forall|t: int| i <= t < len implies btree_model::is_tree(
                        self.model@,
                        #[trigger] children@[t] as int,
                    ) && self.model@.kind[children@[t] as int] == prev.model@.kind[children@[t] as int] by {
                        assert(btree_model::is_tree(prev.model@, children@[t] as int));
                        assert(children@[t] != current);
                    }
                    assert forall|t: int| 0 <= t < k implies btree_model::is_tree(self.model@, #[trigger] pages0[t] as int)
                        && self.model@.kind[pages0[t] as int] == before.model@.kind[pages0[t] as int] by {
                        assert(btree_model::is_tree(prev.model@, pages0[t] as int));
                        assert(next_pages@[t] == pages0[t]);
                        assert(next_pages@[k] == current);
                    }
                    lex::order_laws();
                    reveal(btree_model::inner_inv);
                    assert(btree_model::is_inner(self.model@, current as int));
                    assert(btree_model::inner_inv(self.img(), self.model@, None, current as int));
                    assert forall|q: int| #[trigger] btree_model::is_inner(start.model@, q) implies {
                        &&& btree_model::is_inner(self.model@, q)
                        &&& btree_model::node(self.model@, q).hi == btree_model::node(start.model@, q).hi
                        &&& page::cells(false, self.img()[q]) == page::cells(false, start.img()[q])
                    } by {
                        assert(btree_model::is_inner(prev.model@, q));
                    }
                    assert forall|t: int| 0 <= t < k implies self.img()[#[trigger] pages0[t] as int]
                        == before.img()[pages0[t] as int] by {
                        assert(btree_model::is_tree(prev.model@, pages0[t] as int));
                        assert(next_pages@[t] == pages0[t]);
                        assert(next_pages@[k] == current);
                    }
                    if i == len {
                        self.lemma_top_last();
                        assert(self.model@.tops =~= btree_model::ints(next_pages@));
                        assert(self.model@.tops.last() == next_pages@[k]);
                    }
                }
            }
            proof {
                assert(l[i - 1] == last_keys@[i - 1]@);
            }
            let lk: Vec<u8> = le::copy_range(last_keys[i - 1].as_slice(), 0, last_keys[i - 1].len());
            assert(lk@ =~= l[i - 1]);
            next_last.push(lk);
            proof {
                assert forall|t: int| 0 <= t < next_pages@.len() implies #[trigger] self.brim(next_pages@[t] as int) by {
                    if t < k {
                        assert(next_pages@[t] == pages0[t]);
                        assert(before.brim(pages0[t] as int));
                    }
                }
                let nf = page::deep(next_first@);
                let nl = page::deep(next_last@);
                assert(nl =~= nl0.push(l[i - 1]));
                assert(nf =~= nf0.push(f[gs]));
                assert(nl.last() == l[i - 1]);
                assert forall|t: int| 0 <= t < next_pages@.len() && t > 0 implies btree_model::node(
                    self.model@,
                    #[trigger] next_pages@[t] as int,
                ).lo == Some(lex::separator(nl[t - 1], nf[t])) by {
                    if t < k {
                        assert(next_pages@[t] == pages0[t]);
                        assert(btree_model::is_tree(before.model@, pages0[t] as int));
                        assert(nl[t - 1] == nl0[t - 1] && nf[t] == nf0[t]);
                    } else {
                        assert(nl[t - 1] == nl0[k - 1]);
                        assert(nl0.last() == l[gs - 1]);
                    }
                }
                assert forall|t: int| 0 <= t < next_pages@.len() implies btree_model::is_tree(
                    self.model@,
                    #[trigger] next_pages@[t] as int,
                ) && btree_model::node(self.model@, next_pages@[t] as int).level == level + 1 by {
                    if t < k {
                        assert(next_pages@[t] == pages0[t]);
                        assert(btree_model::is_tree(before.model@, pages0[t] as int));
                    }
                }
                assert forall|t: int| 0 < t < nf.len() implies lex::lt(nl[t - 1], #[trigger] nf[t]) by {
                    if t < k {
                        assert(nl[t - 1] == nl0[t - 1] && nf[t] == nf0[t]);
                        assert(lex::lt(nl0[t - 1], nf0[t]));
                    } else {
                        assert(nl[t - 1] == nl0[k - 1]);
                        assert(nl0.last() == l[gs - 1]);
                        assert(lex::lt(l[gs - 1], f[gs]));
                    }
                }
                assert forall|t: int| 0 <= t < nf.len() implies lex::le(#[trigger] nf[t], nl[t]) && nf[t].len()
                    <= btree_model::MAX_KEY by {
                    if t < k {
                        assert(nl[t] == nl0[t] && nf[t] == nf0[t]);
                        assert(lex::le(nf0[t], nl0[t]));
                    } else {
                        assert(lex::le(f[gs], l[gs]) && f[gs].len() <= btree_model::MAX_KEY);
                    }
                }
            }
        }
        assert(btree_model::ints(children@).skip(len as int) =~= Seq::<int>::empty());
        assert(self.model@.tops =~= btree_model::ints(next_pages@));
        proof {
            assert forall|q: int| #[trigger]
                btree_model::is_inner(self.model@, q) implies btree_model::is_inner(start.model@, q) || self.brim(q) by {
                let is = btree_model::ints(next_pages@);
                if is.contains(q) {
                    let t = choose|t: int| 0 <= t < is.len() && is[t] == q;
                    assert(self.brim(next_pages@[t] as int));
                }
            }
        }
        (next_pages, next_first, next_last)
    }

    /// The range of a topmost page ends where that of the next starts.
    proof fn lemma_top_ends(&self, j: int, next: int)
        requires
            self.base(None),
            0 <= j < self.model@.tops.len() - 1,
            self.model@.tops[j + 1] == next,
        ensures
            btree_model::node(self.model@, self.model@.tops[j]).hi == btree_model::node(self.model@, next).lo,
    {
        reveal(btree_model::tops_inv);
        assert(btree_model::top_ok(self.model@, None, j));
    }

    /// The range of the last topmost page has no end.
    proof fn lemma_top_last(&self)
        requires
            self.base(None),
        ensures
            btree_model::node(self.model@, self.model@.tops.last()).hi is None,
    {
        reveal(btree_model::tops_inv);
        assert(btree_model::top_ok(self.model@, None, self.model@.tops.len() - 1));
    }

    /// A page that is new to `before` is new to what went before that.
    proof fn lemma_inner_trans(&self, before: &BPlusTree, start: &BPlusTree, w: int)
        requires
            self.inner_kept(before),
            before.inner_kept(start),
            !btree_model::is_tree(before.model@, w),
        ensures
            self.inner_kept(start),
            !btree_model::is_inner(start.model@, w),
    {
        assert forall|q: int| #[trigger] btree_model::is_inner(start.model@, q) implies {
            &&& btree_model::is_inner(self.model@, q)
            &&& btree_model::node(self.model@, q).hi == btree_model::node(start.model@, q).hi
            &&& page::cells(false, self.img()[q]) == page::cells(false, start.img()[q])
        } by {
            assert(btree_model::is_inner(before.model@, q));
        }
        if btree_model::is_inner(start.model@, w) {
            assert(btree_model::is_inner(before.model@, w));
        }
    }

    /// The pages of a forest are distinct.
    proof fn lemma_forest_distinct(&self, a: Seq<u64>, b: Seq<u64>, from: int)
        requires
            self.base(None),
            0 <= from <= b.len(),
            self.model@.tops == btree_model::ints(a) + btree_model::ints(b).skip(from),
        ensures
            forall|t: int| 0 <= t < a.len() ==> btree_model::is_tree(self.model@, #[trigger] a[t] as int),
            forall|t: int| from <= t < b.len() ==> btree_model::is_tree(self.model@, #[trigger] b[t] as int),
            forall|s: int, t: int| 0 <= s < t < a.len() ==> #[trigger] a[s] != #[trigger] a[t],
            forall|s: int, t: int| from <= s < t < b.len() ==> #[trigger] b[s] != #[trigger] b[t],
            forall|s: int, t: int| 0 <= s < a.len() && from <= t < b.len() ==> #[trigger] a[s] != #[trigger] b[t],
    {
        let ts = self.model@.tops;
        let n = a.len() as int;
        reveal(btree_model::tops_inv);
        assert forall|t: int| 0 <= t < n implies ts[t] == #[trigger] a[t] && btree_model::is_tree(
            self.model@,
            a[t] as int,
        ) by {
            assert(btree_model::top_ok(self.model@, None, t));
        }
        assert forall|t: int| from <= t < b.len() implies ts[n + t - from] == #[trigger] b[t] && btree_model::is_tree(
            self.model@,
            b[t] as int,
        ) by {
            assert(btree_model::top_ok(self.model@, None, n + t - from));
            assert(btree_model::ints(b).skip(from)[t - from] == b[t] as int);
        }
        assert forall|s: int, t: int| 0 <= s < t < a.len() implies #[trigger] a[s] != #[trigger] a[t] by {
            assert(ts[s] != ts[t]);
        }
        assert forall|s: int, t: int| from <= s < t < b.len() implies #[trigger] b[s] != #[trigger] b[t] by {
            assert(ts[n + s - from] != ts[n + t - from]);
        }
        assert forall|s: int, t: int| 0 <= s < a.len() && from <= t < b.len() implies #[trigger] a[s]
            != #[trigger] b[t] by {
            assert(ts[s] != ts[n + t - from]);
        }
    }

    /// The next sibling can be taken in: its separator lies behind everything so far and
    /// before the end of its own range.
    proof fn lemma_adopt_ready(
        &self,
        pages: Seq<u64>,
        c: Seq<u64>,
        f: Seq<Seq<u8>>,
        l: Seq<Seq<u8>>,
        level: nat,
        i: int,
        gs: int,
        current: int,
        sep: Seq<u8>,
    )
        requires
            self.base(None),
            pages.len() >= 1,
            pages.last() == current,
            0 <= gs < i < c.len(),
            self.model@.tops == btree_model::ints(pages) + btree_model::ints(c).skip(i),
            btree_model::level_ok(self.model@, c, f, l, level, i),
            btree_model::spans_ok(f, l),
            sep == lex::separator(l[i - 1], f[i]),
            gs > 0 ==> btree_model::node(self.model@, current).lo == Some(lex::separator(l[gs - 1], f[gs])),
            gs == 0 ==> btree_model::node(self.model@, current).lo is None,
            lex::le(f[gs], l[i - 1]),
            page::cells(false, self.img()[current]).len() > 0 ==> i - 1 > gs && page::key_of(
                false,
                page::cells(false, self.img()[current]).last(),
            ) == lex::separator(l[i - 2], f[i - 1]),
        ensures
            self.model@.tops[pages.len() - 1] == current,
            self.model@.tops[pages.len() as int] == c[i],
            btree_model::inside(
                sep,
                btree_model::node(self.model@, current).lo,
                btree_model::node(self.model@, c[i] as int).hi,
            ),
            page::cells(false, self.img()[current]).len() > 0 ==> lex::lt(
                page::key_of(false, page::cells(false, self.img()[current]).last()),
                sep,
            ),
            lex::le(f[gs], l[i]),
    {
        lex::order_laws();
        let ts = self.model@.tops;
        let n = pages.len() as int;
        assert(btree_model::ints(c).skip(i)[0] == c[i] as int);
        assert(ts[n] == c[i]);
        assert(lex::lt(l[i - 1], f[i]));
        assert(lex::le(f[i], l[i]));
        lex::separator_between(l[i - 1], f[i]);
        if gs > 0 {
            assert(lex::lt(l[gs - 1], f[gs]));
            lex::separator_between(l[gs - 1], f[gs]);
        }
        if i - 1 > gs {
            assert(lex::lt(l[i - 2], f[i - 1]));
            lex::separator_between(l[i - 2], f[i - 1]);
            assert(lex::le(f[i - 1], l[i - 1]));
        }
        reveal(btree_model::tops_inv);
        assert(btree_model::top_ok(self.model@, None, n));
        if i + 1 < c.len() {
            assert(btree_model::ints(c).skip(i)[1] == c[i + 1] as int);
            assert(ts[n + 1] == c[i + 1]);
            assert(lex::lt(l[i], f[i + 1]));
            lex::separator_between(l[i], f[i + 1]);
            assert(btree_model::node(self.model@, c[i + 1] as int).lo == Some(lex::separator(l[i], f[i + 1])));
        }
    }

    /// Every key and value can be stored.
    pub open spec fn storable(items: Seq<(Vec<u8>, Vec<u8>)>) -> bool {
        forall|i: int|
            0 <= i < items.len() ==> (#[trigger] items[i]).0@.len() <= btree_model::MAX_KEY && items[i].1@.len()
                < page::OVFL_FLAG
    }

    proof fn lemma_map_of_keys(items: Seq<(Vec<u8>, Vec<u8>)>)
        ensures
            maps::map_of(items).dom().finite(),
            maps::map_of(items).len() <= items.len(),
            forall|k: Seq<u8>| #[trigger] maps::map_of(items).contains_key(k) ==> exists|i: int|
                0 <= i < items.len() && #[trigger] items[i].0@ == k,
        decreases items.len(),
    {
        if items.len() > 0 {
            let rest = items.drop_last();
            Self::lemma_map_of_keys(rest);
            let m = maps::map_of(rest);
            assert(maps::map_of(items).dom() =~= m.dom().insert(items.last().0@));
            assert forall|k: Seq<u8>| #[trigger] maps::map_of(items).contains_key(k) implies exists|i: int|
                0 <= i < items.len() && #[trigger] items[i].0@ == k by {
                if k == items.last().0@ {
                    assert(items[items.len() - 1].0@ == k);
                } else {
                    assert(m.contains_key(k));
                    let i = choose|i: int| 0 <= i < rest.len() && #[trigger] rest[i].0@ == k;
                    assert(items[i].0@ == k);
                }
            }
        }
    }

    /// Puts an entry behind the last one, into the last leaf, `cur`, or a new one where
    /// that is full. Gives the leaf, and whether it is new.
    #[verifier::rlimit(40)]
    fn append_entry(&mut self, cur: u64, last: Option<&Vec<u8>>, key: &[u8], value: &[u8]) -> (r: (u64, bool))
        requires
            old(self).base(None),
            old(self).model@.tops == old(self).model@.leaves,
            old(self).model@.leaves.last() == cur,
            btree_model::is_leaf(old(self).model@, cur as int),
            key@.len() <= btree_model::MAX_KEY,
            value@.len() < page::OVFL_FLAG,
            !old(self).model@.map.contains_key(key@),
            old(self).stats.pages + btree_model::extent_pages(value@.len() as int) < MAX_PAGES,
            old(self).tail_ok(
                cur as int,
                match last {
                    Some(k) => Some(k@),
                    None => None,
                },
            ),
            last is Some ==> lex::lt(last->0@, key@),
        ensures
            final(self).stats.free_pages <= old(self).stats.free_pages,
            final(self).base(None),
            final(self).config == old(self).config,
            final(self).stats.entries == old(self).stats.entries,
            final(self).stats.pages <= old(self).stats.pages + btree_model::extent_pages(value@.len() as int) + 1,
            final(self).model@.map == old(self).model@.map.insert(key@, value@),
            final(self).model@.tops == final(self).model@.leaves,
            final(self).model@.leaves.last() == r.0,
            btree_model::is_leaf(final(self).model@, r.0 as int),
            final(self).tail_ok(r.0 as int, Some(key@)),
            !r.1 ==> r.0 == cur && final(self).model@.leaves == old(self).model@.leaves,
            r.1 ==> last is Some && final(self).model@.leaves == old(self).model@.leaves.push(r.0 as int)
                && btree_model::node(final(self).model@, r.0 as int).lo == Some(lex::separator(last->0@, key@)),
            if r.1 {
                &&& page::cells(true, final(self).img()[cur as int]) == page::cells(true, old(self).img()[cur as int])
                &&& page::cells(true, final(self).img()[r.0 as int]).len() == 1
                &&& btree_model::tight(final(self).img(), cur as int, r.0 as int)
            } else {
                &&& page::cells(true, final(self).img()[cur as int]).len() > 0
                &&& page::cells(true, final(self).img()[cur as int]).drop_last() == page::cells(
                    true,
                    old(self).img()[cur as int],
                )
            },
            forall|q: int| #[trigger]
                btree_model::is_leaf(old(self).model@, q) && q != cur ==> page::cells(true, final(self).img()[q])
                    == page::cells(true, old(self).img()[q]),
            final(self).keeps_pages(old(self)),
            forall|q: int| #[trigger]
                btree_model::is_inner(final(self).model@, q) ==> btree_model::is_inner(old(self).model@, q),
            forall|q: int| #[trigger]
                btree_model::is_tree(old(self).model@, q) ==> btree_model::is_tree(final(self).model@, q)
                    && btree_model::node(final(self).model@, q).lo == btree_model::node(old(self).model@, q).lo
                    && btree_model::node(final(self).model@, q).level == btree_model::node(old(self).model@, q).level,
    {
        let ghost start = *self;
        let c: Vec<u8> = self.make_cell(key, value);
        let ghost s1 = *self;
        proof {
            assert(btree_model::is_tree(start.model@, cur as int));
            assert(btree_model::is_leaf(s1.model@, cur as int));
            assert(page::page_ok(true, s1.img()[cur as int])) by {
                reveal(btree_model::leaf_inv);
                assert(btree_model::leaf_inv(s1.img(), s1.model@, cur as int));
            }
            page::lemma_page_cells(true, s1.img()[cur as int]);
            page::lemma_used_bound(page::cells(true, s1.img()[cur as int]));
            s1.lemma_tail_slot(
                cur as int,
                match last {
                    Some(k) => Some(k@),
                    None => None,
                },
                key@,
            );
        }
        let spare: usize = page::free_space(self.page_bytes(cur), true);
        if c.len() + 2 <= spare {
            let count: usize = page::read_count(self.page_bytes(cur));
            self.leaf_put_cell(cur, count, c.as_slice());
            proof {
                let cs = page::cells(true, s1.img()[cur as int]);
                assert(cs.insert(count as int, c@) =~= cs.push(c@));
                assert(cs.push(c@).last() == c@);
                assert(cs.push(c@).drop_last() =~= cs);
                self.lemma_last_hi();
                lex::order_laws();
                assert forall|q: int| #[trigger] btree_model::is_leaf(start.model@, q) && q != cur implies self.img()[q]
                    == start.img()[q] by {
                    assert(btree_model::is_tree(start.model@, q));
                    assert(btree_model::is_tree(s1.model@, q));
                }
                assert forall|q: int| #[trigger] btree_model::is_inner(self.model@, q) implies btree_model::is_inner(
                    start.model@,
                    q,
                ) by {
                    assert(btree_model::is_tree(s1.model@, q));
                }
                assert forall|q: int| #[trigger] btree_model::is_tree(start.model@, q) implies btree_model::is_tree(
                    self.model@,
                    q,
                ) && self.model@.kind[q] == start.model@.kind[q] by {
                    assert(btree_model::is_tree(s1.model@, q));
                }
            }
            return (cur, false);
        }
        match last {
            None => {
                proof {
                    assert(page::used(page::cells(true, s1.img()[cur as int])) == 0);
                    assert(false);
                }
                (cur, false)
            },
            Some(k) => {
                proof {
                    lex::separator_between(k@, key@);
                    lex::order_laws();
                }
                let sep: Vec<u8> = lex::truncated_separator(k.as_slice(), key);
                let fresh: u64 = self.append_leaf(cur, &sep);
                let ghost s2 = *self;
                proof {
                    assert forall|q: int|
                        #[trigger] s1.model@.kind.contains_key(q) && s1.model@.kind[q] == Kind::Extent(
                            page::key_of(true, c@),
                        ) implies s2.model@.kind.contains_key(q) && s2.model@.kind[q] == s1.model@.kind[q]
                        && s2.img()[q] == s1.img()[q] by {
                        assert(btree_model::is_extent(s1.model@, q));
                    }
                    btree_model::lemma_value_kept(s1.img(), s1.model@, s2.img(), s2.model@, c@);
                    let cs = page::cells(true, s2.img()[fresh as int]);
                    assert(page::used(cs) == 0);
                    assert(cs.insert(0, c@) =~= seq![c@]);
                }
                self.leaf_put_cell(fresh, 0, c.as_slice());
                proof {
                    assert(seq![c@].last() == c@);
                    assert forall|q: int| #[trigger] btree_model::is_leaf(start.model@, q) implies page::cells(
                        true,
                        self.img()[q],
                    ) == page::cells(true, start.img()[q]) by {
                        assert(btree_model::is_tree(start.model@, q));
                        assert(btree_model::is_leaf(s1.model@, q));
                        assert(btree_model::is_tree(s2.model@, q));
                        assert(q != fresh);
                    }
                    assert forall|q: int| #[trigger] btree_model::is_inner(self.model@, q) implies btree_model::is_inner(
                        start.model@,
                        q,
                    ) by {
                        assert(btree_model::is_inner(s2.model@, q));
                        assert(btree_model::is_inner(s1.model@, q));
                        assert(btree_model::is_tree(s1.model@, q));
                    }
                    assert forall|q: int| #[trigger] btree_model::is_tree(start.model@, q) implies btree_model::is_tree(
                        self.model@,
                        q,
                    ) && btree_model::node(self.model@, q).lo == btree_model::node(start.model@, q).lo
                        && btree_model::node(self.model@, q).level == btree_model::node(start.model@, q).level by {
                        assert(btree_model::is_tree(s1.model@, q));
                        assert(btree_model::is_tree(s2.model@, q));
                    }
                }
                (fresh, true)
            },
        }
    }

    /// The last key of the last leaf, if there is one.
    spec fn tail_ok(&self, cur: int, last: Option<Seq<u8>>) -> bool {
        let cs = page::cells(true, self.img()[cur]);
        let nd = btree_model::node(self.model@, cur);
        match last {
            None => cs.len() == 0 && nd.lo is None,
            Some(k) => {
                &&& cs.len() > 0
                &&& page::key_of(true, cs.last()) == k
                &&& nd.lo is Some ==> lex::le(nd.lo->0, k)
            },
        }
    }

    proof fn lemma_last_hi(&self)
        requires
            self.base(None),
        ensures
            btree_model::is_leaf(self.model@, self.model@.leaves.last()),
            btree_model::node(self.model@, self.model@.leaves.last()).hi is None,
    {
        reveal(btree_model::chain_inv);
        assert(btree_model::link_ok(self.img(), self.model@, self.model@.leaves.len() - 1));
    }

    /// A key behind the last one belongs at the end of the last leaf.
    proof fn lemma_tail_slot(&self, cur: int, last: Option<Seq<u8>>, key: Seq<u8>)
        requires
            self.base(None),
            btree_model::is_leaf(self.model@, cur),
            self.model@.leaves.last() == cur,
            self.tail_ok(cur, last),
            last is Some ==> lex::lt(last->0, key),
        ensures
            btree_model::slot_found(
                self.img()[cur],
                key,
                page::cells(true, self.img()[cur]).len() as int,
                false,
            ),
            btree_model::in_range(
                key,
                btree_model::node(self.model@, cur).lo,
                btree_model::node(self.model@, cur).hi,
            ),
            last is Some ==> forall|i: int|
                0 <= i < page::cells(true, self.img()[cur]).len() ==> lex::le(
                    page::key_of(true, #[trigger] page::cells(true, self.img()[cur])[i]),
                    last->0,
                ),
    {
        lex::order_laws();
        self.lemma_last_hi();
        let cs = page::cells(true, self.img()[cur]);
        reveal(btree_model::leaf_inv);
        assert(btree_model::leaf_inv(self.img(), self.model@, cur));
        assert forall|i: int| 0 <= i < cs.len() implies lex::lt(page::key_of(true, #[trigger] cs[i]), key) && lex::le(
            page::key_of(true, cs[i]),
            last->0,
        ) by {
            if i < cs.len() - 1 {
                assert(lex::lt(page::key_of(true, cs[i]), page::key_of(true, cs[cs.len() - 1])));
            }
        }
    }

    /// Builds the tree from entries in ascending key order: packs the leaves from left to
    /// right, then builds the internal levels over them. The tree is left empty where the
    /// entries do not fit.
    #[verifier::rlimit(40)]
    fn bottom_up_build_raw(&mut self, items: &Vec<(Vec<u8>, Vec<u8>)>) -> (r: Result<(), StorageError>)
        requires
            old(self).wf(),
            maps::ascending(items@),
            Self::storable(items@),
        ensures
            final(self).wf(),
            final(self).config == old(self).config,
            build_room(items@) ==> r is Ok,
            match r {
                Ok(_) => final(self)@ == maps::map_of(items@) && final(self).stats.free_pages == 0
                    && btree_model::packed(final(self).img(), final(self).model@.leaves) && final(self).inner_full()
                    && btree_model::all_used(final(self).model@, final(self).stats.pages as int)
                    && final(self).stats.pages <= most_pages(items@),
                Err(e) => final(self)@ == Map::<Seq<u8>, Seq<u8>>::empty() && e == StorageError::StorageFull,
            },
    {
        proof {
            self.lemma_root_is_tree();
        }
        self.do_clear();
        let ghost cfg = self.config;
        let mut current: u64 = 1;
        let mut leaves: Vec<u64> = Vec::new();
        leaves.push(1);
        let mut first_keys: Vec<Vec<u8>> = Vec::new();
        let mut last_keys: Vec<Vec<u8>> = Vec::new();
        let mut i: usize = 0;
        proof {
            assert(items@.take(0) =~= Seq::<(Vec<u8>, Vec<u8>)>::empty());
            assert(self.model@.leaves =~= btree_model::ints(leaves@));
        }
        while i < items.len()
            invariant
                self.stats.free_pages == 0,
                leaves@.len() <= i + 1,
                i > 0 ==> leaves@.len() <= i,
                self.stats.pages <= 2 + value_pages(items@.take(i as int)) + i,
                self.base(None),
                self.config == cfg,
                cfg == old(self).config,
                self.stats.entries == 0,
                0 <= i <= items@.len(),
                maps::ascending(items@),
                Self::storable(items@),
                self.model@.map == maps::map_of(items@.take(i as int)),
                leaves@.len() >= 1,
                leaves@.last() == current,
                self.model@.tops == self.model@.leaves,
                self.model@.leaves == btree_model::ints(leaves@),
                btree_model::is_leaf(self.model@, current as int),
                btree_model::packed(self.img(), self.model@.leaves),
                btree_model::all_used(self.model@, self.stats.pages as int),
                forall|q: int| !#[trigger] btree_model::is_inner(self.model@, q),
                i == 0 ==> leaves@.len() == 1 && first_keys@.len() == 0 && last_keys@.len() == 0 && self.tail_ok(
                    current as int,
                    None,
                ),
                i > 0 ==> {
                    &&& self.tail_ok(current as int, Some(items@[i - 1].0@))
                    &&& page::deep(last_keys@).last() == items@[i - 1].0@
                    &&& btree_model::level_ok(
                        self.model@,
                        leaves@,
                        page::deep(first_keys@),
                        page::deep(last_keys@),
                        0,
                        0,
                    )
                    &&& btree_model::spans_ok(page::deep(first_keys@), page::deep(last_keys@))
                },
            decreases items@.len() - i,
        {
            let ghost before = *self;
            let key: &Vec<u8> = &items[i].0;
            let value: &Vec<u8> = &items[i].1;
            assert(items@[i as int].0@.len() <= btree_model::MAX_KEY && items@[i as int].1@.len() < page::OVFL_FLAG);
            assert(value@.len() == value.len());
            let ext: u64 = (value.len() / PAGE_SIZE + 1) as u64;
            assert(btree_model::extent_pages(value@.len() as int) <= ext);
            proof {
                lemma_value_pages(items@, i as int);
            }
            if self.stats.pages + ext >= MAX_PAGES {
                self.do_clear();
                return Err(StorageError::StorageFull);
            }
            proof {
                Self::lemma_new_key(items@, i as int);
                assert(items@.take(i + 1).drop_last() =~= items@.take(i as int));
                if i > 0 {
                    assert(lex::lt(items@[i - 1].0@, items@[i as int].0@));
                    assert(page::deep(last_keys@)[last_keys@.len() - 1] == last_keys@[last_keys@.len() - 1]@);
                }
            }
            let ghost f0 = page::deep(first_keys@);
            let ghost l0 = page::deep(last_keys@);
            let ghost leaves0 = leaves@;
            let last: Option<&Vec<u8>> = if i == 0 { None } else { Some(&last_keys[last_keys.len() - 1]) };
            let (leaf, fresh) = self.append_entry(current, last, key.as_slice(), value.as_slice());
            let copy: Vec<u8> = le::copy_range(key.as_slice(), 0, key.len());
            assert(copy@ =~= key@);
            if i == 0 || fresh {
                let copy2: Vec<u8> = le::copy_range(key.as_slice(), 0, key.len());
                assert(copy2@ =~= key@);
                first_keys.push(copy2);
                last_keys.push(copy);
                if fresh {
                    leaves.push(leaf);
                }
                proof {
                    if fresh {
                        assert(leaves@.drop_last() =~= leaves0);
                    }
                    assert(page::deep(first_keys@) =~= f0.push(key@));
                    assert(page::deep(last_keys@) =~= l0.push(key@));
                }
            } else {
                let at: usize = last_keys.len() - 1;
                last_keys.set(at, copy);
                proof {
                    assert(page::deep(first_keys@) =~= f0);
                    assert(page::deep(last_keys@) =~= l0.update(at as int, key@));
                }
            }
            proof {
                before.lemma_packed_step(self, current as int, leaf as int, fresh);
            }
            current = leaf;
            proof {
                assert(self.model@.leaves =~= btree_model::ints(leaves@));
                before.lemma_level_step(
                    self,
                    leaves0,
                    f0,
                    l0,
                    leaves@,
                    page::deep(first_keys@),
                    page::deep(last_keys@),
                    key@,
                    i == 0,
                    fresh,
                );
            }
            i = i + 1;
        }
        let n: usize = items.len();
        proof {
            assert(items@.take(n as int) =~= items@);
            Self::lemma_map_of_count(items@);
            Self::lemma_map_of_storable(items@);
            assert(leaves@.len() == leaves.len());
        }
        if leaves.len() as u64 > MAX_PAGES || self.stats.pages + 2 * leaves.len() as u64 > MAX_PAGES {
            self.do_clear();
            return Err(StorageError::StorageFull);
        }
        let ghost forest = *self;
        if leaves.len() > 1 {
            self.build_internal_levels(leaves, first_keys, last_keys);
        } else {
            self.set_flag(current, true);
            let ghost flagged = *self;
            self.set_root(current);
            proof {
                flagged.lemma_same_leaves_trans(&forest, self);
            }
        }
        let ghost linked = *self;
        self.write_entries(n);
        proof {
            assert(btree_model::packed(self.img(), self.model@.leaves)) by {
                assert forall|a: int| 0 <= a < self.model@.leaves.len() implies page::cells(
                    true,
                    self.img()[#[trigger] self.model@.leaves[a]],
                ) == page::cells(true, forest.img()[self.model@.leaves[a]]) by {
                    forest.lemma_leaf_facts(a);
                    linked.lemma_leaf_facts(a);
                    assert(btree_model::is_leaf(forest.model@, self.model@.leaves[a]));
                    assert(linked.model@.kind.contains_key(self.model@.leaves[a]));
                    assert(self.img()[self.model@.leaves[a]] == linked.img()[self.model@.leaves[a]]);
                }
            }
            assert forall|q: int| #[trigger] btree_model::is_inner(self.model@, q) implies self.brim(q) by {
                assert(!btree_model::is_inner(forest.model@, q));
                assert(linked.brim(q));
                assert(linked.model@.kind.contains_key(q));
                assert(self.img()[q] == linked.img()[q]);
            }
            assert forall|q: int| 1 <= q < self.stats.pages implies #[trigger] self.model@.kind.contains_key(q) by {
                if q < forest.stats.pages {
                    assert(forest.model@.kind.contains_key(q));
                }
                assert(linked.model@.kind.contains_key(q));
            }
        }
        Ok(())
    }

    /// Leaves that were packed stay so with an entry more at the end.
    proof fn lemma_packed_step(&self, new: &BPlusTree, cur: int, leaf: int, fresh: bool)
        requires
            self.base(None),
            new.base(None),
            btree_model::packed(self.img(), self.model@.leaves),
            self.model@.leaves.last() == cur,
            if fresh {
                &&& new.model@.leaves == self.model@.leaves.push(leaf)
                &&& page::cells(true, new.img()[cur]) == page::cells(true, self.img()[cur])
                &&& btree_model::tight(new.img(), cur, leaf)
            } else {
                &&& new.model@.leaves == self.model@.leaves
                &&& page::cells(true, new.img()[cur]).len() > 0
                &&& page::cells(true, new.img()[cur]).drop_last() == page::cells(true, self.img()[cur])
            },
            forall|q: int| #[trigger]
                btree_model::is_leaf(self.model@, q) && q != cur ==> page::cells(true, new.img()[q]) == page::cells(
                    true,
                    self.img()[q],
                ),
        ensures
            btree_model::packed(new.img(), new.model@.leaves),
    {
        reveal(btree_model::chain_inv);
        let ls = self.model@.leaves;
        let ls2 = new.model@.leaves;
        let n = ls.len() as int;
        assert forall|i: int, j: int| 0 <= i && j == i + 1 && j < ls2.len() implies btree_model::tight(
            new.img(),
            #[trigger] ls2[i],
            #[trigger] ls2[j],
        ) by {
            if j < n {
                assert(ls2[i] == ls[i] && ls2[j] == ls[j]);
                assert(btree_model::tight(self.img(), ls[i], ls[j]));
                self.lemma_leaf_facts(i);
                self.lemma_leaf_facts(j);
                assert(btree_model::before(self.model@, ls[i], ls[n - 1]));
                if j < n - 1 {
                    assert(btree_model::before(self.model@, ls[j], ls[n - 1]));
                } else if !fresh {
                    let cs = page::cells(true, new.img()[cur]);
                    assert(cs.drop_last()[0] == cs[0]);
                }
            } else {
                assert(ls2[i] == ls[n - 1]);
                assert(ls2[j] == leaf);
            }
        }
    }

    /// The keys of the siblings after one more entry.
    proof fn lemma_level_step(
        &self,
        new: &BPlusTree,
        c0: Seq<u64>,
        f0: Seq<Seq<u8>>,
        l0: Seq<Seq<u8>>,
        c: Seq<u64>,
        f: Seq<Seq<u8>>,
        l: Seq<Seq<u8>>,
        key: Seq<u8>,
        first: bool,
        fresh: bool,
    )
        requires
            key.len() <= btree_model::MAX_KEY,
            first ==> c0.len() == 1 && f0.len() == 0 && l0.len() == 0 && btree_model::is_leaf(self.model@, c0[0] as int),
            !first ==> btree_model::level_ok(self.model@, c0, f0, l0, 0, 0) && btree_model::spans_ok(f0, l0)
                && c0.len() >= 1 && lex::lt(l0.last(), key),
            first ==> !fresh,
            first || fresh ==> f == f0.push(key) && l == l0.push(key),
            !first && !fresh ==> f == f0 && l == l0.update(l0.len() - 1, key),
            fresh ==> c.len() == c0.len() + 1 && c.drop_last() == c0 && btree_model::is_leaf(new.model@, c.last() as int)
                && btree_model::node(new.model@, c.last() as int).lo == Some(lex::separator(l0.last(), key)),
            !fresh ==> c == c0,
            forall|q: int| #[trigger]
                btree_model::is_tree(self.model@, q) ==> btree_model::is_tree(new.model@, q) && btree_model::node(
                    new.model@,
                    q,
                ).lo == btree_model::node(self.model@, q).lo && btree_model::node(new.model@, q).level
                    == btree_model::node(self.model@, q).level,
        ensures
            btree_model::level_ok(new.model@, c, f, l, 0, 0),
            btree_model::spans_ok(f, l),
            l.last() == key,
    {
        lex::order_laws();
        let m = new.model@;
        let n = c.len() as int;
        assert forall|i: int| 0 <= i < n implies btree_model::is_tree(m, #[trigger] c[i] as int) && btree_model::node(
            m,
            c[i] as int,
        ).level == 0 by {
            if i < c0.len() {
                assert(c[i] == c0[i]) by {
                    if fresh {
                        assert(c.drop_last()[i] == c[i]);
                    }
                }
                assert(btree_model::is_tree(self.model@, c0[i] as int));
            } else {
                assert(c[i] == c.last());
            }
        }
        assert forall|i: int| 0 < i < n implies btree_model::node(m, #[trigger] c[i] as int).lo == Some(
            lex::separator(l[i - 1], f[i]),
        ) by {
            if i < c0.len() {
                assert(c[i] == c0[i]) by {
                    if fresh {
                        assert(c.drop_last()[i] == c[i]);
                    }
                }
                assert(btree_model::is_tree(self.model@, c0[i] as int));
            } else {
                assert(c[i] == c.last());
                assert(l[i - 1] == l0.last());
            }
        }
        assert forall|i: int| 0 <= i < f.len() implies lex::le(#[trigger] f[i], l[i]) && f[i].len()
            <= btree_model::MAX_KEY by {
            if i < f0.len() {
                assert(f[i] == f0[i]);
                assert(lex::le(f0[i], l0[i]));
            }
        }
        assert forall|i: int| 0 < i < f.len() implies lex::lt(l[i - 1], #[trigger] f[i]) by {
            if i < f0.len() {
                assert(f[i] == f0[i]);
                assert(lex::lt(l0[i - 1], f0[i]));
            }
        }
    }

    proof fn lemma_new_key(items: Seq<(Vec<u8>, Vec<u8>)>, i: int)
        requires
            maps::ascending(items),
            0 <= i < items.len(),
        ensures
            !maps::map_of(items.take(i)).contains_key(items[i].0@),
    {
        Self::lemma_map_of_keys(items.take(i));
        let key = items[i].0@;
        if maps::map_of(items.take(i)).contains_key(key) {
            let x = choose|x: int| 0 <= x < items.take(i).len() && #[trigger] items.take(i)[x].0@ == key;
            assert(lex::lt(items[x].0@, items[i].0@));
            lex::lt_irrefl(key);
        }
    }

    proof fn lemma_map_of_storable(items: Seq<(Vec<u8>, Vec<u8>)>)
        requires
            Self::storable(items),
        ensures
            map_storable(maps::map_of(items)),
        decreases items.len(),
    {
        if items.len() > 0 {
            let rest = items.drop_last();
            assert forall|i: int| 0 <= i < rest.len() implies (#[trigger] rest[i]).0@.len() <= btree_model::MAX_KEY
                && rest[i].1@.len() < page::OVFL_FLAG by {
                assert(rest[i] == items[i]);
            }
            Self::lemma_map_of_storable(rest);
            assert(items[items.len() - 1].0@.len() <= btree_model::MAX_KEY);
            assert forall|k: Seq<u8>| #[trigger] maps::map_of(items).contains_key(k) implies k.len()
                <= btree_model::MAX_KEY && maps::map_of(items)[k].len() < page::OVFL_FLAG by {
                if k != items.last().0@ {
                    assert(maps::map_of(rest).contains_key(k));
                }
            }
        }
    }

    proof fn lemma_map_of_count(items: Seq<(Vec<u8>, Vec<u8>)>)
        requires
            maps::ascending(items),
        ensures
            maps::map_of(items).dom().finite(),
            maps::map_of(items).len() == items.len(),
        decreases items.len(),
    {
        if items.len() > 0 {
            let rest = items.drop_last();
            assert forall|i: int, j: int| 0 <= i < j < rest.len() implies lex::lt(
                #[trigger] rest[i].0@,
                #[trigger] rest[j].0@,
            ) by {
                assert(lex::lt(items[i].0@, items[j].0@));
            }
            Self::lemma_map_of_count(rest);
            Self::lemma_new_key(items, items.len() - 1);
            assert(items.take(items.len() - 1) =~= rest);
            assert(maps::map_of(items).dom() =~= maps::map_of(rest).dom().insert(items.last().0@));
        }
    }

    // ---- iteration --------------------------------------------------------

    /// Key `k` comes before slot `s` of leaf `x` of the chain.
    spec fn pos_lt(&self, x: int, s: int, k: Seq<u8>) -> bool {
        let p = self.model@.leaves[x];
        let lo = btree_model::node(self.model@, p).lo;
        let cs = page::cells(true, self.img()[p]);
        ||| lo is Some && lex::lt(k, lo->0)
        ||| exists|t: int| 0 <= t < s && t < cs.len() && page::key_of(true, #[trigger] cs[t]) == k
    }

    /// What a walk from `start` has passed when it stands at slot `s` of leaf `x`.
    spec fn passed(&self, x: int, s: int, start: Seq<u8>, k: Seq<u8>) -> bool {
        self.model@.map.contains_key(k) && !lex::lt(k, start) && self.pos_lt(x, s, k)
    }

    /// Nothing from slot `s` of leaf `x` on comes before `start`.
    spec fn from_here(&self, x: int, s: int, start: Seq<u8>) -> bool {
        let p = self.model@.leaves[x];
        let hi = btree_model::node(self.model@, p).hi;
        let cs = page::cells(true, self.img()[p]);
        &&& hi is Some ==> !lex::lt(hi->0, start)
        &&& forall|t: int| s <= t < cs.len() ==> !lex::lt(page::key_of(true, #[trigger] cs[t]), start)
    }

    /// The entries that a walk has passed.
    spec fn walked(&self, items: Seq<(Vec<u8>, Vec<u8>)>, x: int, s: int, start: Seq<u8>) -> bool {
        &&& maps::ascending(items)
        &&& forall|k: Seq<u8>| #[trigger] maps::map_of(items).contains_key(k) <==> self.passed(x, s, start, k)
        &&& forall|k: Seq<u8>| #[trigger] maps::map_of(items).contains_key(k) ==> maps::map_of(items)[k]
            == self.model@.map[k]
    }

    proof fn lemma_map_of_has(items: Seq<(Vec<u8>, Vec<u8>)>, i: int)
        requires
            0 <= i < items.len(),
        ensures
            maps::map_of(items).contains_key(items[i].0@),
        decreases items.len(),
    {
        if i < items.len() - 1 {
            Self::lemma_map_of_has(items.drop_last(), i);
        }
    }

    /// Facts about leaf `x` of the chain.
    proof fn lemma_leaf_facts(&self, x: int)
        requires
            self.base(None),
            0 <= x < self.model@.leaves.len(),
        ensures
            btree_model::link_ok(self.img(), self.model@, x),
            btree_model::is_leaf(self.model@, self.model@.leaves[x]),
            btree_model::leaf_inv(self.img(), self.model@, self.model@.leaves[x]),
            page::page_ok(true, self.img()[self.model@.leaves[x]]),
            page::cells(true, self.img()[self.model@.leaves[x]]).len() == page::page_count(
                self.img()[self.model@.leaves[x]],
            ),
            self.img()[self.model@.leaves[x]].len() == PAGE_SIZE,
            x + 1 < self.model@.leaves.len() ==> btree_model::node(self.model@, self.model@.leaves[x]).hi is Some
                && btree_model::node(self.model@, self.model@.leaves[x + 1]).lo == btree_model::node(
                self.model@,
                self.model@.leaves[x],
            ).hi && (btree_model::node(self.model@, self.model@.leaves[x]).lo is Some ==> lex::le(
                btree_model::node(self.model@, self.model@.leaves[x]).lo->0,
                btree_model::node(self.model@, self.model@.leaves[x]).hi->0,
            )),
            0 < x ==> btree_model::node(self.model@, self.model@.leaves[x]).lo is Some,
    {
        let m = self.model@;
        reveal(btree_model::chain_inv);
        assert(btree_model::link_ok(self.img(), m, x));
        assert(btree_model::is_leaf(m, m.leaves[x]));
        reveal(btree_model::leaf_inv);
        assert(btree_model::leaf_inv(self.img(), m, m.leaves[x]));
        page::lemma_page_cells(true, self.img()[m.leaves[x]]);
        if x + 1 < m.leaves.len() {
            assert(btree_model::before(m, m.leaves[x], m.leaves[x + 1]));
            if x > 0 {
                assert(btree_model::link_ok(self.img(), m, x - 1));
                assert(btree_model::before(m, m.leaves[x - 1], m.leaves[x + 1]));
            }
        }
        if x > 0 {
            assert(btree_model::before(m, m.leaves[x - 1], m.leaves[x]));
        }
    }

    /// Passing the end of a leaf is reaching the start of the next.
    proof fn lemma_next_leaf_passed(&self, x: int, start: Seq<u8>, k: Seq<u8>)
        requires
            self.base(None),
            0 <= x < self.model@.leaves.len() - 1,
        ensures
            self.passed(x + 1, 0, start, k) == self.passed(
                x,
                page::cells(true, self.img()[self.model@.leaves[x]]).len() as int,
                start,
                k,
            ),
    {
        lex::order_laws();
        self.lemma_leaf_facts(x);
        self.lemma_leaf_facts(x + 1);
        self.lemma_in_leaf(x, k);
    }

    /// A key of the map in the range of a leaf is in the leaf, and the keys of a leaf are in
    /// its range and in the map.
    proof fn lemma_in_leaf(&self, x: int, k: Seq<u8>)
        requires
            self.base(None),
            0 <= x < self.model@.leaves.len(),
        ensures
            ({
                let p = self.model@.leaves[x];
                let nd = btree_model::node(self.model@, p);
                let cs = page::cells(true, self.img()[p]);
                &&& self.model@.map.contains_key(k) && btree_model::in_range(k, nd.lo, nd.hi) ==> btree_model::has_key(
                    cs,
                    k,
                )
                &&& btree_model::has_key(cs, k) ==> self.model@.map.contains_key(k) && btree_model::in_range(
                    k,
                    nd.lo,
                    nd.hi,
                )
            }),
    {
        self.lemma_leaf_facts(x);
        reveal(btree_model::leaf_inv);
        let p = self.model@.leaves[x];
        let cs = page::cells(true, self.img()[p]);
        if btree_model::has_key(cs, k) {
            let i = choose|i: int| 0 <= i < cs.len() && page::key_of(true, #[trigger] cs[i]) == k;
            assert(btree_model::entry_ok(self.img(), self.model@, btree_model::node(self.model@, p), cs[i]));
        }
    }

    /// Behind the last slot of the last leaf everything is passed.
    proof fn lemma_all_passed(&self, start: Seq<u8>, k: Seq<u8>)
        requires
            self.base(None),
        ensures
            self.passed(
                self.model@.leaves.len() - 1,
                page::cells(true, self.img()[self.model@.leaves.last()]).len() as int,
                start,
                k,
            ) == (self.model@.map.contains_key(k) && !lex::lt(k, start)),
    {
        let x = self.model@.leaves.len() - 1;
        reveal(btree_model::chain_inv);
        self.lemma_leaf_facts(x);
        self.lemma_in_leaf(x, k);
    }

    /// Where a walk stands at a key not before `end`, it has passed all keys before `end`.
    proof fn lemma_end_passed(&self, x: int, s: int, start: Seq<u8>, end: Seq<u8>, k: Seq<u8>)
        requires
            self.base(None),
            0 <= x < self.model@.leaves.len(),
            0 <= s < page::cells(true, self.img()[self.model@.leaves[x]]).len(),
            !lex::lt(page::key_of(true, page::cells(true, self.img()[self.model@.leaves[x]])[s]), end),
            self.model@.map.contains_key(k),
            !lex::lt(k, start),
            lex::lt(k, end),
        ensures
            self.passed(x, s, start, k),
    {
        lex::order_laws();
        self.lemma_leaf_facts(x);
        self.lemma_in_leaf(x, k);
        reveal(btree_model::leaf_inv);
        let p = self.model@.leaves[x];
        let nd = btree_model::node(self.model@, p);
        let cs = page::cells(true, self.img()[p]);
        let ks = page::key_of(true, cs[s]);
        self.lemma_in_leaf(x, ks);
        assert(btree_model::has_key(cs, ks));
        if !(nd.lo is Some && lex::lt(k, nd.lo->0)) {
            assert(btree_model::in_range(k, nd.lo, nd.hi));
            let i = choose|i: int| 0 <= i < cs.len() && page::key_of(true, #[trigger] cs[i]) == k;
            if i > s {
                assert(lex::lt(page::key_of(true, cs[s]), page::key_of(true, cs[i])));
            }
        }
    }

    /// Collects entries in ascending order from slot `s` of leaf `p` on, up to a key.
    fn collect_from(&self, p: u64, s: usize, end: Option<&[u8]>, Ghost(x): Ghost<int>, Ghost(start): Ghost<Seq<u8>>) -> (r:
        Vec<(Vec<u8>, Vec<u8>)>)
        requires
            self.base(None),
            0 <= x < self.model@.leaves.len(),
            self.model@.leaves[x] == p,
            forall|k: Seq<u8>| !self.passed(x, s as int, start, k),
            self.from_here(x, s as int, start),
            s <= page::cells(true, self.img()[p as int]).len(),
        ensures
            maps::ascending(r@),
            maps::map_of(r@) == maps::between(self@, 
                start,
                match end {
                    Some(e) => Some(e@),
                    None => None,
                },
            ),
    {
        let mut items: Vec<(Vec<u8>, Vec<u8>)> = Vec::new();
        let mut p: u64 = p;
        let mut s: usize = s;
        let ghost mut x = x;
        loop
            invariant
                self.base(None),
                0 <= x < self.model@.leaves.len(),
                self.model@.leaves[x] == p,
                s <= page::cells(true, self.img()[p as int]).len(),
                self.walked(items@, x, s as int, start),
                self.from_here(x, s as int, start),
                end is Some ==> forall|k: Seq<u8>| #[trigger]
                    maps::map_of(items@).contains_key(k) ==> lex::lt(k, end->0@),
            decreases self.model@.leaves.len() - x, page::cells(true, self.img()[p as int]).len() - s,
        {
            proof {
                self.lemma_leaf_facts(x);
            }
            let count: usize = page::read_count(self.page_bytes(p));
            if s < count {
                let key: Vec<u8> = page::read_key(self.page_bytes(p), true, s);
                if let Some(e) = end {
                    if !matches!(lex::compare_bytes(key.as_slice(), e), lex::Order::Less) {
                        proof {
                            lex::order_laws();
                            let want = maps::between(self@, start, Some(e@));
                            assert forall|k: Seq<u8>| #[trigger] want.contains_key(k) == maps::map_of(
                                items@,
                            ).contains_key(k) by {
                                if want.contains_key(k) {
                                    self.lemma_end_passed(x, s as int, start, e@, k);
                                }
                            }
                            assert(maps::map_of(items@) =~= want);
                        }
                        return items;
                    }
                }
                let value: Vec<u8> = self.value_bytes_at(p, s);
                let ghost before = items@;
                let ghost cs = page::cells(true, self.img()[p as int]);
                items.push((key, value));
                proof {
                    lex::order_laws();
                    assert(items@.drop_last() =~= before);
                    assert(maps::map_of(items@) == maps::map_of(before).insert(key@, value@));
                    self.lemma_walk_push(before, items@, x, s as int, start);
                }
                s = s + 1;
            } else {
                let next: u64 = le::rd_u64(self.page_bytes(p).as_slice(), 8);
                if next == 0 {
                    proof {
                        let want = maps::between(self@, 
                            start,
                            match end {
                                Some(e) => Some(e@),
                                None => None,
                            },
                        );
                        assert(x == self.model@.leaves.len() - 1) by {
                            if x + 1 < self.model@.leaves.len() {
                                self.lemma_leaf_facts(x + 1);
                            }
                        }
                        assert forall|k: Seq<u8>| #[trigger] want.contains_key(k) == maps::map_of(items@).contains_key(
                            k,
                        ) by {
                            self.lemma_all_passed(start, k);
                        }
                        assert(maps::map_of(items@) =~= want);
                    }
                    return items;
                }
                proof {
                    assert forall|k: Seq<u8>| #[trigger] self.passed(x + 1, 0, start, k) == self.passed(
                        x,
                        s as int,
                        start,
                        k,
                    ) by {
                        self.lemma_next_leaf_passed(x, start, k);
                    }
                    lex::order_laws();
                    self.lemma_leaf_facts(x + 1);
                    assert(self.from_here(x + 1, 0, start)) by {
                        let q = self.model@.leaves[x + 1];
                        let cs = page::cells(true, self.img()[q]);
                        assert forall|t: int| 0 <= t < cs.len() implies !lex::lt(
                            page::key_of(true, #[trigger] cs[t]),
                            start,
                        ) by {
                            self.lemma_in_leaf(x + 1, page::key_of(true, cs[t]));
                            assert(btree_model::has_key(cs, page::key_of(true, cs[t])));
                        }
                    }
                    x = x + 1;
                }
                p = next;
                s = 0;
            }
        }
    }

    /// One more entry passed.
    proof fn lemma_walk_push(
        &self,
        before: Seq<(Vec<u8>, Vec<u8>)>,
        items: Seq<(Vec<u8>, Vec<u8>)>,
        x: int,
        s: int,
        start: Seq<u8>,
    )
        requires
            self.base(None),
            0 <= x < self.model@.leaves.len(),
            0 <= s < page::cells(true, self.img()[self.model@.leaves[x]]).len(),
            self.walked(before, x, s, start),
            items.len() == before.len() + 1,
            items.drop_last() == before,
            items.last().0@ == page::key_of(true, page::cells(true, self.img()[self.model@.leaves[x]])[s]),
            items.last().1@ == btree_model::value_of(
                self.img(),
                page::cells(true, self.img()[self.model@.leaves[x]])[s],
            ),
            !lex::lt(items.last().0@, start),
        ensures
            self.walked(items, x, s + 1, start),
    {
        lex::order_laws();
        self.lemma_leaf_facts(x);
        reveal(btree_model::leaf_inv);
        let p = self.model@.leaves[x];
        let nd = btree_model::node(self.model@, p);
        let cs = page::cells(true, self.img()[p]);
        let key = items.last().0@;
        assert(btree_model::entry_ok(self.img(), self.model@, nd, cs[s]));
        assert forall|k: Seq<u8>| #[trigger] maps::map_of(items).contains_key(k) <==> self.passed(x, s + 1, start, k) by {
            if k == key {
                assert(self.pos_lt(x, s + 1, k)) by {
                    assert(page::key_of(true, cs[s]) == k);
                }
            } else {
                assert(maps::map_of(items).contains_key(k) == maps::map_of(before).contains_key(k));
                if self.pos_lt(x, s + 1, k) && !(nd.lo is Some && lex::lt(k, nd.lo->0)) {
                    let t = choose|t: int|
                        0 <= t < s + 1 && t < cs.len() && page::key_of(true, #[trigger] cs[t]) == k;
                    assert(t < s);
                    assert(self.pos_lt(x, s, k));
                }
                if self.pos_lt(x, s, k) && !(nd.lo is Some && lex::lt(k, nd.lo->0)) {
                    let t = choose|t: int| 0 <= t < s && t < cs.len() && page::key_of(true, #[trigger] cs[t]) == k;
                    assert(t < s + 1 && page::key_of(true, cs[t]) == k);
                    assert(self.pos_lt(x, s + 1, k));
                }
            }
        }
        assert forall|k: Seq<u8>| #[trigger] maps::map_of(items).contains_key(k) implies maps::map_of(items)[k]
            == self.model@.map[k] by {
            if k != key {
                assert(maps::map_of(before).contains_key(k));
            }
        }
        assert forall|i: int, j: int| 0 <= i < j < items.len() implies lex::lt(
            #[trigger] items[i].0@,
            #[trigger] items[j].0@,
        ) by {
            assert(items[i] == before[i]);
            if j < before.len() {
                assert(items[j] == before[j]);
            } else {
                Self::lemma_map_of_has(before, i);
                let k = before[i].0@;
                assert(self.passed(x, s, start, k));
                if !(nd.lo is Some && lex::lt(k, nd.lo->0)) {
                    let t = choose|t: int| 0 <= t < s && t < cs.len() && page::key_of(true, #[trigger] cs[t]) == k;
                    assert(lex::lt(page::key_of(true, cs[t]), page::key_of(true, cs[s])));
                }
            }
        }
    }

    /// The leftmost leaf.
    fn first_leaf(&self) -> (p: u64)
        requires
            self.whole(),
        ensures
            p == self.model@.leaves[0],
    {
        let mut p: u64 = self.get_meta(META_ROOT);
        proof {
            reveal(btree_model::tops_inv);
            assert(btree_model::top_ok(self.model@, None, 0));
        }
        while !self.is_leaf_page(p)
            invariant
                self.whole(),
                btree_model::is_tree(self.model@, p as int),
                btree_model::node(self.model@, p as int).lo is None,
            decreases btree_model::node(self.model@, p as int).level,
        {
            proof {
                reveal(btree_model::inner_inv);
                assert(btree_model::is_inner(self.model@, p as int));
                assert(btree_model::inner_inv(self.img(), self.model@, None, p as int));
                assert(btree_model::kid(self.img()[p as int], 0) == le::u64_at(self.img()[p as int], 8));
                assert(btree_model::kid_ok(self.img(), self.model@, None, p as int, 0));
                page::lemma_page_cells(false, self.img()[p as int]);
            }
            p = le::rd_u64(self.page_bytes(p).as_slice(), 8);
        }
        proof {
            btree_model::lemma_leaf_index(self.img(), self.model@, p as int);
            let x = btree_model::leaf_index(self.model@, p as int);
            self.lemma_leaf_facts(x);
        }
        p
    }

    /// What a backward walk from before `end` has passed when `s` slots of leaf `x` are left.
    spec fn passed_back(&self, x: int, s: int, end: Option<Seq<u8>>, k: Seq<u8>) -> bool {
        let p = self.model@.leaves[x];
        let hi = btree_model::node(self.model@, p).hi;
        let cs = page::cells(true, self.img()[p]);
        &&& self.model@.map.contains_key(k)
        &&& end is Some ==> lex::lt(k, end->0)
        &&& {
            ||| hi is Some && !lex::lt(k, hi->0)
            ||| exists|t: int| s <= t < cs.len() && page::key_of(true, #[trigger] cs[t]) == k
        }
    }

    /// Everything before slot `s` of leaf `x` comes before `end`.
    spec fn until_here(&self, x: int, s: int, end: Option<Seq<u8>>) -> bool {
        let p = self.model@.leaves[x];
        let lo = btree_model::node(self.model@, p).lo;
        let cs = page::cells(true, self.img()[p]);
        end is Some ==> {
            &&& lo is Some ==> !lex::lt(end->0, lo->0)
            &&& forall|t: int| 0 <= t < s && t < cs.len() ==> lex::lt(page::key_of(true, #[trigger] cs[t]), end->0)
        }
    }

    /// The entries that a backward walk has passed.
    spec fn walked_back(&self, items: Seq<(Vec<u8>, Vec<u8>)>, x: int, s: int, end: Option<Seq<u8>>) -> bool {
        &&& maps::descending(items)
        &&& forall|k: Seq<u8>| #[trigger] maps::map_of(items).contains_key(k) <==> self.passed_back(x, s, end, k)
        &&& forall|k: Seq<u8>| #[trigger] maps::map_of(items).contains_key(k) ==> maps::map_of(items)[k]
            == self.model@.map[k]
    }

    proof fn lemma_prev_leaf_passed(&self, x: int, end: Option<Seq<u8>>, k: Seq<u8>)
        requires
            self.base(None),
            0 < x < self.model@.leaves.len(),
        ensures
            self.passed_back(
                x - 1,
                page::cells(true, self.img()[self.model@.leaves[x - 1]]).len() as int,
                end,
                k,
            ) == self.passed_back(x, 0, end, k),
    {
        lex::order_laws();
        self.lemma_leaf_facts(x);
        self.lemma_leaf_facts(x - 1);
        self.lemma_in_leaf(x, k);
    }

    proof fn lemma_walk_back_push(
        &self,
        before: Seq<(Vec<u8>, Vec<u8>)>,
        items: Seq<(Vec<u8>, Vec<u8>)>,
        x: int,
        s: int,
        end: Option<Seq<u8>>,
    )
        requires
            self.base(None),
            0 <= x < self.model@.leaves.len(),
            0 < s <= page::cells(true, self.img()[self.model@.leaves[x]]).len(),
            self.walked_back(before, x, s, end),
            self.until_here(x, s, end),
            items.len() == before.len() + 1,
            items.drop_last() == before,
            items.last().0@ == page::key_of(true, page::cells(true, self.img()[self.model@.leaves[x]])[s - 1]),
            items.last().1@ == btree_model::value_of(
                self.img(),
                page::cells(true, self.img()[self.model@.leaves[x]])[s - 1],
            ),
        ensures
            self.walked_back(items, x, s - 1, end),
    {
        lex::order_laws();
        self.lemma_leaf_facts(x);
        reveal(btree_model::leaf_inv);
        let p = self.model@.leaves[x];
        let nd = btree_model::node(self.model@, p);
        let cs = page::cells(true, self.img()[p]);
        let key = items.last().0@;
        assert(btree_model::entry_ok(self.img(), self.model@, nd, cs[s - 1]));
        assert forall|k: Seq<u8>| #[trigger] maps::map_of(items).contains_key(k) <==> self.passed_back(x, s - 1, end, k) by {
            if k == key {
                assert(page::key_of(true, cs[s - 1]) == k);
            } else {
                assert(maps::map_of(items).contains_key(k) == maps::map_of(before).contains_key(k));
                if self.passed_back(x, s - 1, end, k) && !(nd.hi is Some && !lex::lt(k, nd.hi->0)) {
                    let t = choose|t: int| s - 1 <= t < cs.len() && page::key_of(true, #[trigger] cs[t]) == k;
                    assert(t >= s);
                    assert(self.passed_back(x, s, end, k));
                }
                if self.passed_back(x, s, end, k) && !(nd.hi is Some && !lex::lt(k, nd.hi->0)) {
                    let t = choose|t: int| s <= t < cs.len() && page::key_of(true, #[trigger] cs[t]) == k;
                    assert(t >= s - 1 && page::key_of(true, cs[t]) == k);
                }
            }
        }
        assert forall|k: Seq<u8>| #[trigger] maps::map_of(items).contains_key(k) implies maps::map_of(items)[k]
            == self.model@.map[k] by {
            if k != key {
                assert(maps::map_of(before).contains_key(k));
            }
        }
        assert forall|i: int, j: int| 0 <= i < j < items.len() implies lex::lt(
            #[trigger] items[j].0@,
            #[trigger] items[i].0@,
        ) by {
            assert(items[i] == before[i]);
            if j < before.len() {
                assert(items[j] == before[j]);
            } else {
                Self::lemma_map_of_has(before, i);
                let k = before[i].0@;
                assert(self.passed_back(x, s, end, k));
                if !(nd.hi is Some && !lex::lt(k, nd.hi->0)) {
                    let t = choose|t: int| s <= t < cs.len() && page::key_of(true, #[trigger] cs[t]) == k;
                    assert(lex::lt(page::key_of(true, cs[s - 1]), page::key_of(true, cs[t])));
                }
            }
        }
    }

    /// Where a backward walk reaches a key before `start`, it has passed all keys from
    /// `start` on.
    proof fn lemma_start_passed(&self, x: int, s: int, start: Seq<u8>, end: Option<Seq<u8>>, k: Seq<u8>)
        requires
            self.base(None),
            0 <= x < self.model@.leaves.len(),
            0 < s <= page::cells(true, self.img()[self.model@.leaves[x]]).len(),
            lex::lt(page::key_of(true, page::cells(true, self.img()[self.model@.leaves[x]])[s - 1]), start),
            self.model@.map.contains_key(k),
            !lex::lt(k, start),
            end is Some ==> lex::lt(k, end->0),
        ensures
            self.passed_back(x, s, end, k),
    {
        lex::order_laws();
        self.lemma_leaf_facts(x);
        self.lemma_in_leaf(x, k);
        reveal(btree_model::leaf_inv);
        let p = self.model@.leaves[x];
        let nd = btree_model::node(self.model@, p);
        let cs = page::cells(true, self.img()[p]);
        let ks = page::key_of(true, cs[s - 1]);
        self.lemma_in_leaf(x, ks);
        assert(btree_model::has_key(cs, ks));
        if !(nd.hi is Some && !lex::lt(k, nd.hi->0)) {
            assert(btree_model::in_range(k, nd.lo, nd.hi));
            let i = choose|i: int| 0 <= i < cs.len() && page::key_of(true, #[trigger] cs[i]) == k;
            if i < s - 1 {
                assert(lex::lt(page::key_of(true, cs[i]), page::key_of(true, cs[s - 1])));
            }
        }
    }

    /// Collects entries in descending order from before slot `s` of leaf `p` on, down to a
    /// key.
    fn collect_back(&self, p: u64, s: usize, start: &[u8], Ghost(x): Ghost<int>, Ghost(end): Ghost<Option<Seq<u8>>>) -> (r:
        Vec<(Vec<u8>, Vec<u8>)>)
        requires
            self.base(None),
            0 <= x < self.model@.leaves.len(),
            self.model@.leaves[x] == p,
            forall|k: Seq<u8>| !self.passed_back(x, s as int, end, k),
            self.until_here(x, s as int, end),
            s <= page::cells(true, self.img()[p as int]).len(),
        ensures
            maps::descending(r@),
            maps::map_of(r@) == maps::between(self@, start@, end),
    {
        let mut items: Vec<(Vec<u8>, Vec<u8>)> = Vec::new();
        let mut p: u64 = p;
        let mut s: usize = s;
        let ghost mut x = x;
        loop
            invariant
                self.base(None),
                0 <= x < self.model@.leaves.len(),
                self.model@.leaves[x] == p,
                s <= page::cells(true, self.img()[p as int]).len(),
                self.walked_back(items@, x, s as int, end),
                self.until_here(x, s as int, end),
                forall|k: Seq<u8>| #[trigger] maps::map_of(items@).contains_key(k) ==> !lex::lt(k, start@),
            decreases x, s,
        {
            proof {
                self.lemma_leaf_facts(x);
            }
            if s > 0 {
                let key: Vec<u8> = page::read_key(self.page_bytes(p), true, s - 1);
                if matches!(lex::compare_bytes(key.as_slice(), start), lex::Order::Less) {
                    proof {
                        let want = maps::between(self@, start@, end);
                        assert forall|k: Seq<u8>| #[trigger] want.contains_key(k) == maps::map_of(items@).contains_key(
                            k,
                        ) by {
                            if want.contains_key(k) {
                                self.lemma_start_passed(x, s as int, start@, end, k);
                            }
                        }
                        assert(maps::map_of(items@) =~= want);
                    }
                    return items;
                }
                let value: Vec<u8> = self.value_bytes_at(p, s - 1);
                let ghost before = items@;
                items.push((key, value));
                proof {
                    lex::order_laws();
                    assert(items@.drop_last() =~= before);
                    assert(maps::map_of(items@) == maps::map_of(before).insert(key@, value@));
                    self.lemma_walk_back_push(before, items@, x, s as int, end);
                }
                s = s - 1;
            } else {
                let prev: u64 = le::rd_u64(self.page_bytes(p).as_slice(), 16);
                if prev == 0 {
                    proof {
                        let want = maps::between(self@, start@, end);
                        assert(x == 0) by {
                            if x > 0 {
                                self.lemma_leaf_facts(x - 1);
                            }
                        }
                        assert forall|k: Seq<u8>| #[trigger] want.contains_key(k) == maps::map_of(items@).contains_key(
                            k,
                        ) by {
                            self.lemma_in_leaf(0, k);
                        }
                        assert(maps::map_of(items@) =~= want);
                    }
                    return items;
                }
                proof {
                    lex::order_laws();
                    self.lemma_leaf_facts(x - 1);
                    let q = self.model@.leaves[x - 1];
                    let cs = page::cells(true, self.img()[q]);
                    assert forall|k: Seq<u8>| #[trigger] self.passed_back(x - 1, cs.len() as int, end, k)
                        == self.passed_back(x, 0, end, k) by {
                        self.lemma_prev_leaf_passed(x, end, k);
                    }
                    assert(self.until_here(x - 1, cs.len() as int, end)) by {
                        assert forall|t: int| 0 <= t < cs.len() && end is Some implies lex::lt(
                            page::key_of(true, #[trigger] cs[t]),
                            end->0,
                        ) by {
                            self.lemma_in_leaf(x - 1, page::key_of(true, cs[t]));
                            assert(btree_model::has_key(cs, page::key_of(true, cs[t])));
                        }
                    }
                    x = x - 1;
                }
                p = prev;
                s = page::read_count(self.page_bytes(p));
            }
        }
    }

    // ---- reading ----------------------------------------------------------

    /// The value of `key`.
    pub fn get(&self, key: &[u8]) -> (r: Option<Vec<u8>>)
        requires
            self.wf(),
        ensures
            match r {
                Some(v) => self@.contains_key(key@) && v@ == self@[key@],
                None => !self@.contains_key(key@),
            },
    {
        self.value_bytes_for(key)
    }

    /// Whether `key` is there.
    pub fn contains(&self, key: &[u8]) -> (r: bool)
        requires
            self.wf(),
        ensures
            r == self@.contains_key(key@),
    {
        self.value_bytes_for(key).is_some()
    }

    /// All entries in ascending key order.
    pub fn entries(&self) -> (r: Vec<(Vec<u8>, Vec<u8>)>)
        requires
            self.wf(),
        ensures
            maps::ascending(r@),
            maps::map_of(r@) == self@,
    {
        let p: u64 = self.first_leaf();
        let ghost zero = Seq::<u8>::empty();
        proof {
            reveal(btree_model::chain_inv);
            self.lemma_leaf_facts(0);
            lex::order_laws();
            assert forall|k: Seq<u8>| !lex::lt(k, zero) by {}
            assert(maps::between(self@, zero, None) =~= self@);
        }
        self.collect_from(p, 0, None, Ghost(0), Ghost(zero))
    }

    /// The keys in ascending order.
    pub fn keys(&self) -> (r: Vec<Vec<u8>>)
        requires
            self.wf(),
        ensures
            forall|i: int, j: int| 0 <= i < j < r@.len() ==> lex::lt(#[trigger] r@[i]@, #[trigger] r@[j]@),
            forall|k: Seq<u8>| #[trigger] self@.contains_key(k) <==> exists|i: int| 0 <= i < r@.len() && #[trigger] r@[i]@ == k,
    {
        let items: Vec<(Vec<u8>, Vec<u8>)> = self.entries();
        let mut out: Vec<Vec<u8>> = Vec::new();
        let mut i: usize = 0;
        while i < items.len()
            invariant
                0 <= i <= items@.len(),
                out@.len() == i,
                forall|j: int| 0 <= j < i ==> (#[trigger] out@[j])@ == items@[j].0@,
            decreases items@.len() - i,
        {
            let c: Vec<u8> = le::copy_range(items[i].0.as_slice(), 0, items[i].0.len());
            assert(c@ =~= items@[i as int].0@);
            out.push(c);
            i = i + 1;
        }
        proof {
            Self::lemma_map_of_keys(items@);
            assert forall|a: int, b: int| 0 <= a < b < out@.len() implies lex::lt(
                #[trigger] out@[a]@,
                #[trigger] out@[b]@,
            ) by {
                assert(lex::lt(items@[a].0@, items@[b].0@));
            }
            assert forall|k: Seq<u8>| #[trigger] self@.contains_key(k) <==> exists|i: int|
                0 <= i < out@.len() && #[trigger] out@[i]@ == k by {
                if self@.contains_key(k) {
                    let x = choose|x: int| 0 <= x < items@.len() && #[trigger] items@[x].0@ == k;
                    assert(out@[x]@ == k);
                }
                if exists|i: int| 0 <= i < out@.len() && #[trigger] out@[i]@ == k {
                    let x = choose|x: int| 0 <= x < out@.len() && #[trigger] out@[x]@ == k;
                    Self::lemma_map_of_has(items@, x);
                }
            }
        }
        out
    }

    /// The values in ascending order of their keys: value `i` belongs to entry `i`.
    pub fn values(&self) -> (r: Vec<Vec<u8>>)
        requires
            self.wf(),
        ensures
            exists|items: Seq<(Vec<u8>, Vec<u8>)>| #[trigger] maps::ascending(items) && maps::map_of(items) == self@
                && items.len() == r@.len() && forall|i: int| 0 <= i < r@.len() ==> (#[trigger] r@[i])@ == items[i].1@,
    {
        let items: Vec<(Vec<u8>, Vec<u8>)> = self.entries();
        let mut out: Vec<Vec<u8>> = Vec::new();
        let mut i: usize = 0;
        while i < items.len()
            invariant
                0 <= i <= items@.len(),
                out@.len() == i,
                forall|j: int| 0 <= j < i ==> (#[trigger] out@[j])@ == items@[j].1@,
            decreases items@.len() - i,
        {
            let c: Vec<u8> = le::copy_range(items[i].1.as_slice(), 0, items[i].1.len());
            assert(c@ =~= items@[i as int].1@);
            out.push(c);
            i = i + 1;
        }
        out
    }

    /// The entries with keys from `start` on and before `end`, in ascending order.
    pub fn range(&self, start: &[u8], end: &[u8]) -> (r: Vec<(Vec<u8>, Vec<u8>)>)
        requires
            self.wf(),
        ensures
            maps::ascending(r@),
            maps::map_of(r@) == maps::between(self@, start@, Some(end@)),
    {
        let p: u64 = self.find_leaf(start);
        let (slot, found) = self.leaf_find_slot(p, start);
        let ghost x = btree_model::leaf_index(self.model@, p as int);
        proof {
            btree_model::lemma_leaf_index(self.img(), self.model@, p as int);
            self.lemma_leaf_facts(x);
            lex::order_laws();
            assert(self.from_here(x, slot as int, start@));
            assert forall|k: Seq<u8>| !self.passed(x, slot as int, start@, k) by {
                if self.pos_lt(x, slot as int, k) {
                    let cs = page::cells(true, self.img()[p as int]);
                    if exists|t: int| 0 <= t < slot && t < cs.len() && page::key_of(true, #[trigger] cs[t]) == k {
                        let t = choose|t: int| 0 <= t < slot && t < cs.len() && page::key_of(true, #[trigger] cs[t]) == k;
                        assert(lex::lt(page::key_of(true, cs[t]), start@));
                    }
                }
            }
        }
        self.collect_from(p, slot, Some(end), Ghost(x), Ghost(start@))
    }

    /// All entries in descending key order.
    pub fn entries_rev(&self) -> (r: Vec<(Vec<u8>, Vec<u8>)>)
        requires
            self.wf(),
        ensures
            maps::descending(r@),
            maps::map_of(r@) == self@,
    {
        let p: u64 = self.get_meta(META_RIGHTMOST_LEAF);
        let zero: Vec<u8> = Vec::new();
        let ghost x = self.model@.leaves.len() - 1;
        proof {
            self.lemma_last_hi();
            reveal(btree_model::chain_inv);
            self.lemma_leaf_facts(x);
            lex::order_laws();
            assert(maps::between(self@, zero@, None) =~= self@) by {
                assert forall|k: Seq<u8>| !lex::lt(k, zero@) by {}
            }
        }
        let count: usize = page::read_count(self.page_bytes(p));
        self.collect_back(p, count, zero.as_slice(), Ghost(x), Ghost(None))
    }

    /// The entries with keys from `start` on and before `end`, in descending order.
    pub fn range_rev(&self, start: &[u8], end: &[u8]) -> (r: Vec<(Vec<u8>, Vec<u8>)>)
        requires
            self.wf(),
        ensures
            maps::descending(r@),
            maps::map_of(r@) == maps::between(self@, start@, Some(end@)),
    {
        let p: u64 = self.find_leaf(end);
        let (slot, found) = self.leaf_find_slot(p, end);
        let ghost x = btree_model::leaf_index(self.model@, p as int);
        proof {
            btree_model::lemma_leaf_index(self.img(), self.model@, p as int);
            self.lemma_leaf_facts(x);
            lex::order_laws();
            assert(self.until_here(x, slot as int, Some(end@)));
            assert forall|k: Seq<u8>| !self.passed_back(x, slot as int, Some(end@), k) by {
                let cs = page::cells(true, self.img()[p as int]);
                if exists|t: int| slot <= t < cs.len() && page::key_of(true, #[trigger] cs[t]) == k {
                    let t = choose|t: int| slot <= t < cs.len() && page::key_of(true, #[trigger] cs[t]) == k;
                    assert(!lex::lt(page::key_of(true, cs[t]), end@));
                }
            }
        }
        self.collect_back(p, slot, start, Ghost(x), Ghost(Some(end@)))
    }

    /// The smallest entry.
    pub fn first(&self) -> (r: Option<(Vec<u8>, Vec<u8>)>)
        requires
            self.wf(),
        ensures
            match r {
                Some((k, v)) => self@.contains_key(k@) && v@ == self@[k@] && forall|o: Seq<u8>| #[trigger]
                    self@.contains_key(o) ==> lex::le(k@, o),
                None => self@ == Map::<Seq<u8>, Seq<u8>>::empty(),
            },
    {
        let mut p: u64 = self.first_leaf();
        let ghost mut x: int = 0;
        let ghost zero = Seq::<u8>::empty();
        proof {
            reveal(btree_model::chain_inv);
            self.lemma_leaf_facts(0);
            lex::order_laws();
        }
        loop
            invariant
                self.wf(),
                0 <= x < self.model@.leaves.len(),
                self.model@.leaves[x] == p,
                forall|k: Seq<u8>| !self.passed(x, 0, zero, k),
                zero == Seq::<u8>::empty(),
            decreases self.model@.leaves.len() - x,
        {
            proof {
                self.lemma_leaf_facts(x);
            }
            let count: usize = page::read_count(self.page_bytes(p));
            if count > 0 {
                let key: Vec<u8> = page::read_key(self.page_bytes(p), true, 0);
                let value: Vec<u8> = self.value_bytes_at(p, 0);
                proof {
                    lex::order_laws();
                    let cs = page::cells(true, self.img()[p as int]);
                    reveal(btree_model::leaf_inv);
                    assert(btree_model::entry_ok(
                        self.img(),
                        self.model@,
                        btree_model::node(self.model@, p as int),
                        cs[0],
                    ));
                    assert forall|o: Seq<u8>| #[trigger] self@.contains_key(o) implies lex::le(key@, o) by {
                        if lex::lt(o, key@) {
                            self.lemma_end_passed(x, 0, zero, key@, o);
                        }
                    }
                }
                return Some((key, value));
            }
            let next: u64 = le::rd_u64(self.page_bytes(p).as_slice(), 8);
            if next == 0 {
                proof {
                    assert(x == self.model@.leaves.len() - 1) by {
                        if x + 1 < self.model@.leaves.len() {
                            self.lemma_leaf_facts(x + 1);
                        }
                    }
                    assert forall|k: Seq<u8>| !#[trigger] self@.contains_key(k) by {
                        self.lemma_all_passed(zero, k);
                        lex::order_laws();
                    }
                    assert(self@ =~= Map::<Seq<u8>, Seq<u8>>::empty());
                }
                return None;
            }
            proof {
                assert forall|k: Seq<u8>| !#[trigger] self.passed(x + 1, 0, zero, k) by {
                    self.lemma_next_leaf_passed(x, zero, k);
                }
                self.lemma_leaf_facts(x + 1);
                x = x + 1;
            }
            p = next;
        }
    }

    /// The largest entry.
    pub fn last(&self) -> (r: Option<(Vec<u8>, Vec<u8>)>)
        requires
            self.wf(),
        ensures
            match r {
                Some((k, v)) => self@.contains_key(k@) && v@ == self@[k@] && forall|o: Seq<u8>| #[trigger]
                    self@.contains_key(o) ==> lex::le(o, k@),
                None => self@ == Map::<Seq<u8>, Seq<u8>>::empty(),
            },
    {
        let mut p: u64 = self.get_meta(META_RIGHTMOST_LEAF);
        let ghost mut x: int = self.model@.leaves.len() - 1;
        let ghost none: Option<Seq<u8>> = None;
        proof {
            self.lemma_last_hi();
            reveal(btree_model::chain_inv);
            self.lemma_leaf_facts(x);
        }
        loop
            invariant
                self.wf(),
                0 <= x < self.model@.leaves.len(),
                self.model@.leaves[x] == p,
                forall|k: Seq<u8>|
                    !#[trigger] self.passed_back(x, page::cells(true, self.img()[self.model@.leaves[x]]).len() as int, none, k),
                none is None,
            decreases x,
        {
            proof {
                self.lemma_leaf_facts(x);
            }
            let count: usize = page::read_count(self.page_bytes(p));
            if count > 0 {
                let key: Vec<u8> = page::read_key(self.page_bytes(p), true, count - 1);
                let value: Vec<u8> = self.value_bytes_at(p, count - 1);
                proof {
                    lex::order_laws();
                    let cs = page::cells(true, self.img()[p as int]);
                    reveal(btree_model::leaf_inv);
                    let nd = btree_model::node(self.model@, p as int);
                    assert(btree_model::entry_ok(self.img(), self.model@, nd, cs[count - 1]));
                    assert forall|o: Seq<u8>| #[trigger] self@.contains_key(o) implies lex::le(o, key@) by {
                        if lex::lt(key@, o) {
                            self.lemma_start_passed(x, count as int, o, none, o);
                        }
                    }
                }
                return Some((key, value));
            }
            let prev: u64 = le::rd_u64(self.page_bytes(p).as_slice(), 16);
            if prev == 0 {
                proof {
                    assert(x == 0) by {
                        if x > 0 {
                            self.lemma_leaf_facts(x - 1);
                        }
                    }
                    assert forall|k: Seq<u8>| !#[trigger] self@.contains_key(k) by {
                        self.lemma_in_leaf(0, k);
                        assert(!self.passed_back(0, 0, none, k));
                    }
                    assert(self@ =~= Map::<Seq<u8>, Seq<u8>>::empty());
                }
                return None;
            }
            proof {
                self.lemma_leaf_facts(x - 1);
                assert forall|k: Seq<u8>|
                    !#[trigger] self.passed_back(
                        x - 1,
                        page::cells(true, self.img()[self.model@.leaves[x - 1]]).len() as int,
                        none,
                        k,
                    ) by {
                    self.lemma_prev_leaf_passed(x, none, k);
                }
                x = x - 1;
            }
            p = prev;
        }
    }

    // ---- rebuilding the internal levels -----------------------------------

    /// Puts the inner children of a page on the stack of those that wait.
    fn push_inner_kids(&self, p: u64, stack: &mut Vec<u64>, Ghost(f): Ghost<Seq<int>>, Ghost(root): Ghost<int>)
        requires
            self.whole(),
            btree_model::is_inner(self.model@, p as int),
            f.contains(p as int),
            btree_model::all_listed(self.img(), self.model@, f, btree_model::ints(old(stack)@), p as int),
            btree_model::hang_on(self.model@, root, f, btree_model::ints(old(stack)@)),
        ensures
            btree_model::all_listed(self.img(), self.model@, f, btree_model::ints(final(stack)@), p as int),
            btree_model::kids_listed(
                self.img(),
                self.model@,
                f,
                btree_model::ints(final(stack)@),
                p as int,
                page::cells(false, self.img()[p as int]).len() as int + 1,
            ),
            btree_model::hang_on(self.model@, root, f, btree_model::ints(final(stack)@)),
            forall|q: int| #[trigger]
                btree_model::ints(old(stack)@).contains(q) ==> btree_model::ints(final(stack)@).contains(q),
    {
        let ghost m = self.model@;
        let ghost img = self.img();
        proof {
            reveal(btree_model::inner_inv);
            assert(btree_model::inner_inv(img, m, None, p as int));
            page::lemma_page_cells(false, img[p as int]);
        }
        let count: usize = page::read_count(self.page_bytes(p));
        let mut i: usize = 0;
        while i <= count
            invariant
                self.whole(),
                m == self.model@,
                img == self.img(),
                btree_model::is_inner(m, p as int),
                f.contains(p as int),
                count == page::page_count(img[p as int]),
                count == page::cells(false, img[p as int]).len(),
                0 <= i <= count + 1,
                count <= 0xffff,
                btree_model::all_listed(img, m, f, btree_model::ints(stack@), p as int),
                btree_model::kids_listed(img, m, f, btree_model::ints(stack@), p as int, i as int),
                btree_model::hang_on(m, root, f, btree_model::ints(stack@)),
                forall|q: int| #[trigger]
                    btree_model::ints(old(stack)@).contains(q) ==> btree_model::ints(stack@).contains(q),
            decreases count + 1 - i,
        {
            proof {
                reveal(btree_model::inner_inv);
                assert(btree_model::inner_inv(img, m, None, p as int));
                page::lemma_page_cells(false, img[p as int]);
                assert(btree_model::kid(img[p as int], i as int) == btree_model::kid_of(
                    le::u64_at(img[p as int], 8) as int,
                    page::cells(false, img[p as int]),
                    i as int,
                ));
                assert(btree_model::kid_ok(img, m, None, p as int, i as int));
            }
            let c: u64 = if i == 0 {
                le::rd_u64(self.page_bytes(p).as_slice(), 8)
            } else {
                page::read_child(self.page_bytes(p), i - 1)
            };
            assert(c == btree_model::kid(img[p as int], i as int));
            let ghost before = stack@;
            if !self.is_leaf_page(c) {
                stack.push(c);
                proof {
                    btree_model::lemma_ints_push(before, c);
                    btree_model::lemma_joined(
                        img,
                        m,
                        root,
                        f,
                        btree_model::ints(before),
                        btree_model::ints(stack@),
                        p as int,
                        i as int,
                        c as int,
                    );
                }
            }
            i = i + 1;
        }
    }

    /// Collects all internal pages, each once.
    fn collect_internal(&self) -> (r: Vec<u64>)
        requires
            self.whole(),
        ensures
            forall|i: int| 0 <= i < r@.len() ==> btree_model::is_inner(self.model@, #[trigger] r@[i] as int),
            forall|i: int, j: int| 0 <= i < j < r@.len() ==> #[trigger] r@[i] != #[trigger] r@[j],
            forall|q: int| #[trigger]
                btree_model::is_inner(self.model@, q) ==> btree_model::ints(r@).contains(q),
    {
        let ghost m = self.model@;
        let ghost n = self.stats.pages as int;
        let ghost img = self.img();
        let mut found: Vec<u64> = Vec::new();
        let mut seen: Vec<bool> = Vec::new();
        assert(self.pages@.len() == self.pages.len());
        seen.resize(self.pages.len(), false);
        let mut stack: Vec<u64> = Vec::new();
        let root: u64 = self.get_meta(META_ROOT);
        proof {
            self.lemma_root_is_tree();
        }
        if !self.is_leaf_page(root) {
            stack.push(root);
            proof {
                btree_model::lemma_ints_push(Seq::empty(), root);
                assert(Seq::<u64>::empty().push(root) =~= stack@);
            }
        }
        proof {
            assert(btree_model::ints(found@) =~= Seq::<int>::empty());
            if stack@.len() == 0 {
                assert(btree_model::ints(stack@) =~= Seq::<int>::empty());
            } else {
                assert(btree_model::ints(Seq::<u64>::empty()) =~= Seq::<int>::empty());
            }
        }
        while stack.len() > 0
            invariant
                self.whole(),
                m == self.model@,
                img == self.img(),
                root == m.tops[0],
                n == self.stats.pages,
                btree_model::is_inner(m, root as int) ==> btree_model::ints(found@).contains(root as int)
                    || btree_model::ints(stack@).contains(root as int),
                btree_model::all_listed(img, m, btree_model::ints(found@), btree_model::ints(stack@), -1),
                btree_model::hang_on(m, root as int, btree_model::ints(found@), btree_model::ints(found@)),
                btree_model::hang_on(m, root as int, btree_model::ints(found@), btree_model::ints(stack@)),
                forall|q: int| 0 <= q < seen@.len() && #[trigger] seen@[q] ==> btree_model::ints(found@).contains(q),
                seen@.len() == self.pages@.len(),
                self.pages@.len() == self.pages.len(),
                forall|i: int| 0 <= i < found@.len() ==> btree_model::is_inner(m, #[trigger] found@[i] as int)
                    && seen@[found@[i] as int],
                forall|i: int, j: int| 0 <= i < j < found@.len() ==> #[trigger] found@[i] != #[trigger] found@[j],
                found@.len() < n,
            decreases n - found@.len(), stack@.len(),
        {
            let ghost stack0 = stack@;
            let p: u64 = stack[stack.len() - 1];
            stack.pop();
            let ghost f0 = btree_model::ints(found@);
            let ghost s0 = btree_model::ints(stack0);
            proof {
                assert(stack@.push(p) =~= stack0);
                btree_model::lemma_ints_push(stack@, p);
                assert(s0.contains(p as int));
            }
            if !seen[p as usize] {
                let ghost found0 = found@;
                let ghost seen0 = seen@;
                seen.set(p as usize, true);
                found.push(p);
                proof {
                    assert forall|i: int, j: int| 0 <= i < j < found@.len() implies #[trigger] found@[i]
                        != #[trigger] found@[j] by {
                        if j == found0.len() {
                            assert(seen0[found0[i] as int]);
                        }
                    }
                    let fi = btree_model::ints(found@);
                    assert forall|i: int| 0 <= i < fi.len() implies 1 <= #[trigger] fi[i] < n by {
                        assert(btree_model::is_inner(m, found@[i] as int));
                    }
                    assert forall|i: int, j: int| 0 <= i < j < fi.len() implies #[trigger] fi[i] != #[trigger] fi[j] by {
                        assert(found@[i] != found@[j]);
                    }
                    btree_model::lemma_distinct_bound(fi, n);
                    btree_model::lemma_ints_push(found0, p);
                    btree_model::lemma_popped(img, m, root as int, f0, s0, fi, btree_model::ints(stack@), p as int);
                }
                self.push_inner_kids(p, &mut stack, Ghost(btree_model::ints(found@)), Ghost(root as int));
                proof {
                    btree_model::lemma_listed_whole(
                        img,
                        m,
                        btree_model::ints(found@),
                        btree_model::ints(stack@),
                        p as int,
                    );
                }
            } else {
                proof {
                    assert(f0.contains(p as int));
                    btree_model::lemma_passed_over(
                        img,
                        m,
                        root as int,
                        f0,
                        s0,
                        btree_model::ints(stack@),
                        p as int,
                    );
                }
            }
        }
        proof {
            assert(btree_model::ints(stack@) =~= Seq::<int>::empty());
            btree_model::lemma_all_inner(img, m, n, btree_model::ints(found@));
        }
        found
    }

    /// The tree is a forest of leaves.
    spec fn leaf_forest(&self) -> bool {
        &&& self.base(None)
        &&& self.model@.tops == self.model@.leaves
        &&& forall|q: int| #[trigger]
            btree_model::is_tree(self.model@, q) ==> btree_model::is_leaf(self.model@, q) && btree_model::node(
                self.model@,
                q,
            ).parent == 0
    }

    /// Takes the empty leaf at `x` of a forest out of the chain and frees its page.
    #[verifier::rlimit(40)]
    fn drop_leaf(&mut self, p: u64, Ghost(x): Ghost<int>)
        requires
            old(self).leaf_forest(),
            0 <= x < old(self).model@.leaves.len(),
            old(self).model@.leaves.len() >= 2,
            old(self).model@.leaves[x] == p,
            page::cells(true, old(self).img()[p as int]).len() == 0,
        ensures
            final(self).leaf_forest(),
            final(self).config == old(self).config,
            final(self).stats.entries == old(self).stats.entries,
            final(self).stats.pages == old(self).stats.pages,
            final(self).model@.map == old(self).model@.map,
            final(self).model@.leaves == old(self).model@.leaves.remove(x),
            final(self).keeps_pages(old(self)),
            forall|q: int|
                #[trigger] final(self).model@.kind.contains_key(q) ==> q == p || old(self).model@.kind.contains_key(q),
            forall|q: int| #[trigger]
                btree_model::is_leaf(old(self).model@, q) && q != p ==> btree_model::is_leaf(final(self).model@, q)
                    && page::cells(true, final(self).img()[q]) == page::cells(true, old(self).img()[q]),
    {
        let ghost m = self.model@;
        let ghost img = self.img();
        let ghost n = self.stats.pages as int;
        let ghost ls = m.leaves;
        let ghost start = *self;
        proof {
            self.lemma_leaf_facts(x);
            if x > 0 {
                self.lemma_leaf_facts(x - 1);
                btree_model::lemma_chain_facts(img, m, x - 1, x);
            }
            if x + 1 < ls.len() {
                self.lemma_leaf_facts(x + 1);
                btree_model::lemma_chain_facts(img, m, x, x + 1);
            }
            if x > 0 && x + 1 < ls.len() {
                btree_model::lemma_chain_facts(img, m, x - 1, x + 1);
            }
            btree_model::lemma_leaf_count(img, m, n);
        }
        let prev: u64 = le::rd_u64(self.page_bytes(p).as_slice(), 16);
        let next: u64 = le::rd_u64(self.page_bytes(p).as_slice(), 8);
        if prev != 0 {
            self.put64(prev, 8, next);
        }
        let ghost s1 = *self;
        if next != 0 {
            self.put64(next, 16, prev);
        } else {
            self.put_meta(META_RIGHTMOST_LEAF, prev);
        }
        let ghost s2 = *self;
        let count: u64 = self.stats.leaf_pages - 1;
        self.put_meta(META_LEAF_PAGES, count);
        self.stats.leaf_pages = count;
        self.model = Ghost(btree_model::without_leaf(m, x));
        proof {
            let img2 = self.img();
            let m2 = self.model@;
            assert(btree_model::unlinked_pages(img, m, img2, x)) by {
                if x > 0 {
                    let a = prev as int;
                    assert(img2[a] == s1.img()[a]);
                    assert forall|i: int| 0 <= i < 8 implies #[trigger] img[a][16 + i] == img2[a][16 + i] by {}
                    le::lemma_u64_same(img[a], img2[a], 16, 16);
                }
                if x + 1 < ls.len() {
                    let b = next as int;
                    assert(img2[b] == s2.img()[b]);
                    assert(s1.img()[b] == img[b]);
                    assert forall|i: int| 0 <= i < 8 implies #[trigger] img[b][8 + i] == img2[b][8 + i] by {}
                    le::lemma_u64_same(img[b], img2[b], 8, 8);
                }
                assert forall|q: int|
                    0 < q < img.len() && q != ls[x] && !(x > 0 && q == ls[x - 1]) && !(x + 1 < ls.len() && q == ls[x
                        + 1]) implies #[trigger] img2[q] == img[q] by {
                    assert(img2[q] == s2.img()[q]);
                    assert(s2.img()[q] == s1.img()[q]);
                }
                assert forall|q: int| 0 <= q < img2.len() implies (#[trigger] img2[q]).len() == PAGE_SIZE by {
                    if q != 0 {
                        assert(img2[q] == s2.img()[q]);
                        assert(s2.img()[q].len() == s1.img()[q].len());
                    }
                }
            }
            btree_model::lemma_drop_leaf(img, m, img2, m2, n, x);
            assert(m2.leaves.last() == (if next == 0 {
                prev as int
            } else {
                ls.last()
            }));
            assert forall|q: int| #[trigger] btree_model::is_leaf(m, q) && q != p implies btree_model::is_leaf(m2, q)
                && page::cells(true, img2[q]) == page::cells(true, img[q]) by {
                btree_model::lemma_leaf_index(img, m, q);
                let i = btree_model::leaf_index(m, q);
                btree_model::lemma_chain_facts(img, m, i, x);
                btree_model::lemma_kept_cells(img, m, img2, x, i);
            }
        }
        let ghost mid = *self;
        self.free_page(p, Ghost(None));
        proof {
            assert forall|q: int| #[trigger] btree_model::is_leaf(m, q) && q != p implies btree_model::is_leaf(
                self.model@,
                q,
            ) && page::cells(true, self.img()[q]) == page::cells(true, img[q]) by {
                assert(btree_model::is_leaf(mid.model@, q));
                assert(mid.model@.kind.contains_key(q));
            }
            assert forall|q: int| #[trigger] btree_model::is_tree(self.model@, q) implies btree_model::is_leaf(
                self.model@,
                q,
            ) && btree_model::node(self.model@, q).parent == 0 by {
                assert(btree_model::is_tree(mid.model@, q));
            }
        }
    }

    /// Frees pages that are not in use.
    fn free_all(&mut self, pages: &Vec<u64>)
        requires
            old(self).leaf_forest(),
            forall|i: int|
                0 <= i < pages@.len() ==> !old(self).model@.kind.contains_key(#[trigger] pages@[i] as int) && 1
                    <= pages@[i] < old(self).stats.pages,
            forall|i: int, j: int| 0 <= i < j < pages@.len() ==> #[trigger] pages@[i] != #[trigger] pages@[j],
        ensures
            final(self).leaf_forest(),
            final(self).config == old(self).config,
            final(self).stats.entries == old(self).stats.entries,
            final(self).stats.pages == old(self).stats.pages,
            final(self).model@.map == old(self).model@.map,
            final(self).model@.leaves == old(self).model@.leaves,
            forall|q: int| #[trigger]
                btree_model::is_leaf(old(self).model@, q) ==> btree_model::is_leaf(final(self).model@, q)
                    && final(self).img()[q] == old(self).img()[q],
            final(self).model@ == btree_model::freed(old(self).model@, btree_model::ints(pages@)),
            final(self).stats == (BPlusTreeStats {
                free_pages: final(self).model@.free.len() as u64,
                ..old(self).stats
            }),
            forall|q: int|
                #[trigger] old(self).model@.kind.contains_key(q) ==> final(self).img()[q] == old(self).img()[q],
    {
        let mut i: usize = 0;
        proof {
            btree_model::lemma_freed_none(self.model@);
            assert(btree_model::ints(pages@.take(0)) =~= Seq::<int>::empty());
        }
        while i < pages.len()
            invariant
                self.model@ == btree_model::freed(old(self).model@, btree_model::ints(pages@.take(i as int))),
                self.stats == (BPlusTreeStats { free_pages: self.model@.free.len() as u64, ..old(self).stats }),
                forall|q: int|
                    #[trigger] old(self).model@.kind.contains_key(q) ==> self.img()[q] == old(self).img()[q],
                0 <= i <= pages@.len(),
                self.leaf_forest(),
                self.config == old(self).config,
                self.stats.entries == old(self).stats.entries,
                self.stats.pages == old(self).stats.pages,
                self.model@.map == old(self).model@.map,
                self.model@.leaves == old(self).model@.leaves,
                forall|j: int|
                    i <= j < pages@.len() ==> !self.model@.kind.contains_key(#[trigger] pages@[j] as int) && 1
                        <= pages@[j] < self.stats.pages,
                forall|i: int, j: int| 0 <= i < j < pages@.len() ==> #[trigger] pages@[i] != #[trigger] pages@[j],
                forall|q: int| #[trigger]
                    btree_model::is_leaf(old(self).model@, q) ==> btree_model::is_leaf(self.model@, q)
                        && self.img()[q] == old(self).img()[q],
            decreases pages@.len() - i,
        {
            let ghost prev = *self;
            self.free_page(pages[i], Ghost(None));
            proof {
                let ps = btree_model::ints(pages@.take(i as int));
                btree_model::lemma_freed_push(old(self).model@, ps, pages@[i as int] as int);
                assert(ps.push(pages@[i as int] as int) =~= btree_model::ints(pages@.take(i + 1)));
                assert forall|q: int| #[trigger] old(self).model@.kind.contains_key(q) implies self.img()[q] == old(
                    self,
                ).img()[q] by {
                    assert(prev.model@.kind.contains_key(q));
                }
                assert forall|q: int| #[trigger] btree_model::is_leaf(old(self).model@, q) implies btree_model::is_leaf(
                    self.model@,
                    q,
                ) && self.img()[q] == old(self).img()[q] by {
                    assert(btree_model::is_leaf(prev.model@, q));
                    assert(prev.model@.kind.contains_key(q));
                }
                assert forall|q: int| #[trigger] btree_model::is_tree(self.model@, q) implies btree_model::is_leaf(
                    self.model@,
                    q,
                ) && btree_model::node(self.model@, q).parent == 0 by {
                    assert(btree_model::is_tree(prev.model@, q));
                }
            }
            i = i + 1;
        }
        assert(pages@.take(i as int) =~= pages@);
    }

    /// The leaves hold the cells that they had in `img`.
    spec fn same_cells(&self, img: Seq<Seq<u8>>) -> bool {
        forall|i: int|
            0 <= i < self.model@.leaves.len() ==> page::cells(true, self.img()[#[trigger] self.model@.leaves[i]])
                == page::cells(true, img[self.model@.leaves[i]])
    }

    proof fn lemma_cells_after_drop(&self, before: &BPlusTree, img: Seq<Seq<u8>>, x: int)
        requires
            before.leaf_forest(),
            before.same_cells(img),
            0 <= x < before.model@.leaves.len(),
            self.model@.leaves == before.model@.leaves.remove(x),
            forall|q: int| #[trigger]
                btree_model::is_leaf(before.model@, q) && q != before.model@.leaves[x] ==> page::cells(
                    true,
                    self.img()[q],
                ) == page::cells(true, before.img()[q]),
        ensures
            self.same_cells(img),
    {
        assert forall|i: int| 0 <= i < self.model@.leaves.len() implies page::cells(
            true,
            self.img()[#[trigger] self.model@.leaves[i]],
        ) == page::cells(true, img[self.model@.leaves[i]]) by {
            let j = if i < x {
                i
            } else {
                i + 1
            };
            assert(self.model@.leaves[i] == before.model@.leaves[j]);
            btree_model::lemma_chain_facts(before.img(), before.model@, j, x);
            assert(btree_model::is_leaf(before.model@, before.model@.leaves[j]));
        }
    }

    proof fn lemma_cells_kept(&self, before: &BPlusTree, img: Seq<Seq<u8>>)
        requires
            before.base(None),
            before.same_cells(img),
            self.model@.leaves == before.model@.leaves,
            forall|q: int| #[trigger]
                btree_model::is_leaf(before.model@, q) ==> page::cells(true, self.img()[q]) == page::cells(
                    true,
                    before.img()[q],
                ),
        ensures
            self.same_cells(img),
    {
        assert forall|i: int| 0 <= i < self.model@.leaves.len() implies page::cells(
            true,
            self.img()[#[trigger] self.model@.leaves[i]],
        ) == page::cells(true, img[self.model@.leaves[i]]) by {
            btree_model::lemma_chain_facts(before.img(), before.model@, i, i);
            assert(btree_model::is_leaf(before.model@, before.model@.leaves[i]));
        }
    }

    /// Builds the internal levels over a forest of leaves, of which there is one at the least.
    /// Where there are more, each holds an entry; `first_keys` and `last_keys` are the smallest and
    /// the largest key of each.
    #[verifier::rlimit(40)]
    fn link_leaves(&mut self, leaves: Vec<u64>, first_keys: Vec<Vec<u8>>, last_keys: Vec<Vec<u8>>)
        requires
            old(self).leaf_forest(),
            leaves@.len() >= 1,
            btree_model::ints(leaves@) == old(self).model@.leaves,
            leaves@.len() > 1 ==> first_keys@.len() == leaves@.len() && last_keys@.len() == leaves@.len() && forall|
                i: int,
            |
                0 <= i < leaves@.len() ==> btree_model::end_of(
                    old(self).img()[leaves@[i] as int],
                    #[trigger] first_keys@[i]@,
                    last_keys@[i]@,
                ),
            old(self).stats.pages + 2 * leaves@.len() <= MAX_PAGES,
        ensures
            final(self).whole(),
            final(self).config == old(self).config,
            final(self).stats.entries == old(self).stats.entries,
            final(self).model@.map == old(self).model@.map,
            final(self).model@.leaves == old(self).model@.leaves,
            forall|q: int| #[trigger]
                btree_model::is_leaf(old(self).model@, q) ==> page::cells(true, final(self).img()[q]) == page::cells(
                    true,
                    old(self).img()[q],
                ),
            final(self).keeps_pages(old(self)),
            final(self).drew(old(self)),
            final(self).inner_full(),
            leaves@.len() == 1 ==> forall|q: int| !#[trigger] btree_model::is_inner(final(self).model@, q),
    {
        let ghost forest = *self;
        assert forall|q: int| !#[trigger] btree_model::is_inner(forest.model@, q) by {
            if btree_model::is_inner(forest.model@, q) {
                assert(btree_model::is_tree(forest.model@, q));
            }
        }
        if leaves.len() == 1 {
            let only: u64 = leaves[0];
            proof {
                self.lemma_leaf_facts(0);
                assert(btree_model::ints(leaves@)[0] == only);
            }
            self.set_flag(only, true);
            let ghost flagged = *self;
            self.set_root(only);
            proof {
                flagged.lemma_same_leaves_trans(&forest, self);
                assert(self.model@ == forest.model@);
            }
        } else {
            let ghost m3 = self.model@;
            let ghost f = page::deep(first_keys@);
            let ghost l = page::deep(last_keys@);
            self.model = Ghost(btree_model::recut(m3, f, l));
            proof {
                assert(btree_model::ends_of(self.img(), m3, f, l)) by {
                    assert forall|i: int| 0 <= i < f.len() implies btree_model::end_of(
                        self.img()[m3.leaves[i]],
                        #[trigger] f[i],
                        l[i],
                    ) by {
                        assert(f[i] == first_keys@[i]@);
                        assert(btree_model::ints(leaves@)[i] == m3.leaves[i]);
                    }
                }
                btree_model::lemma_recut(self.img(), m3, self.stats.pages as int, f, l);
                assert forall|i: int| 0 <= i < leaves@.len() implies btree_model::is_tree(
                    self.model@,
                    #[trigger] leaves@[i] as int,
                ) && btree_model::node(self.model@, leaves@[i] as int).level == 0 && leaves@[i] == m3.leaves[i] by {
                    assert(btree_model::ints(leaves@)[i] == m3.leaves[i]);
                    btree_model::lemma_chain_facts(self.img(), m3, i, i);
                    assert(btree_model::is_tree(m3, m3.leaves[i]));
                    assert(btree_model::is_tree(self.model@, m3.leaves[i]));
                }
                assert forall|i: int| 0 < i < leaves@.len() implies btree_model::node(
                    self.model@,
                    #[trigger] leaves@[i] as int,
                ).lo == Some(lex::separator(l[i - 1], f[i])) by {
                    assert(leaves@[i] == m3.leaves[i]);
                }
                assert(btree_model::spans_ok(f, l)) by {
                    assert forall|i: int| 0 <= i < f.len() implies lex::le(#[trigger] f[i], l[i]) && f[i].len()
                        <= btree_model::MAX_KEY by {
                        btree_model::lemma_ends_rise(self.img(), m3, f, l, i, i);
                    }
                    assert forall|i: int| 0 < i < f.len() implies lex::lt(l[i - 1], #[trigger] f[i]) by {
                        btree_model::lemma_ends_rise(self.img(), m3, f, l, i - 1, i);
                    }
                }
            }
            let ghost cut = *self;
            assert forall|q: int| !#[trigger] btree_model::is_inner(cut.model@, q) by {
                if btree_model::is_inner(cut.model@, q) {
                    assert(!btree_model::is_inner(forest.model@, q));
                }
            }
            self.build_internal_levels(leaves, first_keys, last_keys);
            proof {
                assert forall|q: int| #[trigger] btree_model::is_leaf(forest.model@, q) implies page::cells(
                    true,
                    self.img()[q],
                ) == page::cells(true, forest.img()[q]) by {
                    assert(btree_model::is_leaf(cut.model@, q));
                }
                assert forall|q: int| #[trigger] btree_model::is_inner(self.model@, q) implies self.brim(q) by {
                    assert(!btree_model::is_inner(cut.model@, q));
                }
                assert(self.keeps_pages(&forest)) by {
                    assert forall|q: int|
                        forest.model@.kind.contains_key(q) || forest.stats.pages <= q
                            < self.stats.pages implies #[trigger] self.model@.kind.contains_key(q) by {
                        if forest.model@.kind.contains_key(q) {
                            assert(cut.model@.kind.contains_key(q));
                        }
                    }
                }
            }
        }
    }

    /// Frees the internal pages and the empty leaves, and builds the internal levels anew
    /// over the leaves that are left.
    #[verifier::rlimit(60)]
    fn rebuild_internal_from_leaves(&mut self)
        requires
            old(self).wf(),
            old(self).stats.pages + 2 * old(self).stats.leaf_pages <= MAX_PAGES,
        ensures
            final(self).wf(),
            final(self).config == old(self).config,
            final(self)@ == old(self)@,
            final(self).model@.leaves == btree_model::kept_leaves(old(self).img(), old(self).model@.leaves),
            final(self).same_cells(old(self).img()),
            final(self).leaf_keys() == btree_model::held(old(self).leaf_keys()),
            final(self).keeps_pages(old(self)),
            final(self).stats.pages >= old(self).stats.pages,
            final(self).stats.pages > old(self).stats.pages ==> final(self).stats.free_pages == 0,
            final(self).inner_full(),
            final(self).model@.leaves.len() == 1 ==> forall|q: int| !#[trigger]
                btree_model::is_inner(final(self).model@, q),
            old(self).accounted() ==> final(self).accounted() && final(self).pages_counted(),
    {
        let inner: Vec<u64> = self.collect_internal();
        let mut p: u64 = self.first_leaf();
        let ghost m = self.model@;
        let ghost img = self.img();
        let ghost n = self.stats.pages as int;
        let ghost start = *self;
        let bound: u64 = self.stats.leaf_pages;
        self.model = Ghost(btree_model::leaves_only(m));
        proof {
            btree_model::lemma_leaves_only(img, m, n);
            assert(self.leaf_forest());
            assert forall|i: int| 0 <= i < inner@.len() implies !self.model@.kind.contains_key(
                #[trigger] inner@[i] as int,
            ) && 1 <= inner@[i] < n by {
                assert(btree_model::is_inner(m, inner@[i] as int));
            }
            reveal(btree_model::chain_inv);
        }
        let ghost all = m.leaves;
        let ghost mut at: int = 0;
        proof {
            assert(btree_model::ints(Seq::<u64>::empty()) =~= Seq::<int>::empty());
            assert(all.take(0) =~= Seq::<int>::empty());
            assert(Seq::<int>::empty() + all.skip(0) =~= all);
        }
        let mut leaves: Vec<u64> = Vec::new();
        let mut first_keys: Vec<Vec<u8>> = Vec::new();
        let mut last_keys: Vec<Vec<u8>> = Vec::new();
        loop
            invariant_except_break
                0 <= at < all.len(),
                btree_model::ints(leaves@) == btree_model::filled_leaves(img, all.take(at)),
                self.model@.leaves == btree_model::ints(leaves@) + all.skip(at),
                leaves@.len() < self.model@.leaves.len(),
                self.model@.leaves[leaves@.len() as int] == p,
                btree_model::ints(leaves@) == self.model@.leaves.take(leaves@.len() as int),
                first_keys@.len() == leaves@.len(),
                last_keys@.len() == leaves@.len(),
                forall|i: int|
                    0 <= i < leaves@.len() ==> btree_model::end_of(
                        self.img()[leaves@[i] as int],
                        #[trigger] first_keys@[i]@,
                        last_keys@[i]@,
                    ),
            invariant
                self.leaf_forest(),
                self.config == start.config,
                self.stats.entries == start.stats.entries,
                self.stats.pages == n,
                self.model@.map == m.map,
                self.same_cells(img),
                forall|q: int|
                    #[trigger] m.kind.contains_key(q) && !btree_model::is_inner(m, q) ==> self.model@.kind.contains_key(q),
                self.model@.leaves.len() <= bound,
                n + 2 * bound <= MAX_PAGES,
                forall|i: int|
                    0 <= i < inner@.len() ==> !self.model@.kind.contains_key(#[trigger] inner@[i] as int) && 1
                        <= inner@[i] < n,
            ensures
                btree_model::ints(leaves@) == self.model@.leaves,
                self.model@.leaves == btree_model::kept_leaves(img, all),
                leaves@.len() > 1 ==> first_keys@.len() == leaves@.len() && last_keys@.len() == leaves@.len()
                    && forall|i: int|
                    0 <= i < leaves@.len() ==> btree_model::end_of(
                        self.img()[leaves@[i] as int],
                        #[trigger] first_keys@[i]@,
                        last_keys@[i]@,
                    ),
            decreases self.model@.leaves.len() - leaves@.len(),
        {
            let ghost x = leaves@.len() as int;
            let ghost before = *self;
            proof {
                self.lemma_leaf_facts(x);
                assert(self.model@.leaves[x] == all[at]);
                assert(all.take(at + 1).drop_last() =~= all.take(at));
                assert(all.take(at + 1).last() == all[at]);
            }
            let count: usize = page::read_count(self.page_bytes(p));
            let next: u64 = le::rd_u64(self.page_bytes(p).as_slice(), 8);
            if count == 0 && (leaves.len() > 0 || next != 0) {
                proof {
                    if x + 1 < self.model@.leaves.len() {
                        self.lemma_leaf_facts(x + 1);
                    }
                }
                self.drop_leaf(p, Ghost(x));
                proof {
                    assert(self.model@.leaves =~= btree_model::ints(leaves@) + all.skip(at + 1));
                    self.lemma_cells_after_drop(&before, img, x);
                    if next == 0 {
                        assert(at + 1 == all.len());
                        assert(all.take(at + 1) =~= all);
                    }
                    at = at + 1;
                    assert(self.model@.leaves.take(x) =~= before.model@.leaves.take(x));
                    if next == 0 {
                        assert(x + 1 == before.model@.leaves.len());
                        assert(self.model@.leaves.take(x) =~= self.model@.leaves);
                    } else {
                        assert(self.model@.leaves[x] == before.model@.leaves[x + 1]);
                    }
                    assert forall|i: int|
                        0 <= i < leaves@.len() implies btree_model::end_of(
                        self.img()[leaves@[i] as int],
                        #[trigger] first_keys@[i]@,
                        last_keys@[i]@,
                    ) by {
                        assert(btree_model::ints(leaves@)[i] == before.model@.leaves[i]);
                        before.lemma_leaf_facts(i);
                        btree_model::lemma_chain_facts(before.img(), before.model@, i, x);
                    }
                    assert forall|i: int| 0 <= i < inner@.len() implies !self.model@.kind.contains_key(
                        #[trigger] inner@[i] as int,
                    ) by {
                        assert(before.model@.kind.contains_key(p as int));
                    }
                }
                if next == 0 {
                    break;
                }
            } else {
                let ghost leaves0 = leaves@;
                if count > 0 {
                    let fk: Vec<u8> = page::read_key(self.page_bytes(p), true, 0);
                    let lk: Vec<u8> = page::read_key(self.page_bytes(p), true, count - 1);
                    first_keys.push(fk);
                    last_keys.push(lk);
                }
                leaves.push(p);
                proof {
                    assert(btree_model::ints(leaves@) =~= self.model@.leaves.take(x + 1));
                    assert(self.model@.leaves =~= btree_model::ints(leaves@) + all.skip(at + 1));
                    assert(btree_model::ints(leaves@) =~= btree_model::ints(leaves0).push(p as int));
                    if next == 0 {
                        if at + 1 < all.len() {
                            assert(self.model@.leaves[x + 1] == all[at + 1]);
                            self.lemma_leaf_facts(x + 1);
                        }
                        assert(all.take(at + 1) =~= all);
                        if count == 0 {
                            assert(leaves0.len() == 0);
                            assert(btree_model::ints(leaves0) =~= Seq::<int>::empty());
                            assert(btree_model::ints(leaves@) =~= seq![all.last()]);
                        }
                    }
                    at = at + 1;
                    assert forall|i: int|
                        count > 0 && 0 <= i < leaves@.len() implies btree_model::end_of(
                        self.img()[leaves@[i] as int],
                        #[trigger] first_keys@[i]@,
                        last_keys@[i]@,
                    ) by {
                        if i < x {
                            assert(leaves@[i] == leaves0[i]);
                        }
                    }
                }
                if next == 0 {
                    proof {
                        if x + 1 < self.model@.leaves.len() {
                            self.lemma_leaf_facts(x + 1);
                        }
                        assert(btree_model::ints(leaves@) =~= self.model@.leaves);
                    }
                    break;
                }
            }
            p = next;
        }
        let ghost mid = *self;
        self.free_all(&inner);
        proof {
            assert(self.keeps_pages(&start)) by {
                assert forall|q: int| #[trigger] start.model@.kind.contains_key(q) implies self.model@.kind.contains_key(
                    q,
                ) by {
                    if btree_model::is_inner(m, q) {
                        assert(btree_model::ints(inner@).contains(q));
                    } else {
                        assert(mid.model@.kind.contains_key(q));
                    }
                }
            }
            self.lemma_cells_kept(&mid, img);
        }
        let ghost forest = *self;
        proof {
            assert forall|i: int| leaves@.len() > 1 && 0 <= i < leaves@.len() implies btree_model::end_of(
                self.img()[leaves@[i] as int],
                #[trigger] first_keys@[i]@,
                last_keys@[i]@,
            ) by {
                assert(btree_model::ints(leaves@)[i] == mid.model@.leaves[i]);
                mid.lemma_leaf_facts(i);
            }
        }
        self.link_leaves(leaves, first_keys, last_keys);
        proof {
            self.lemma_cells_kept(&forest, img);
        }
        proof {
            btree_model::lemma_groups_held(
                img,
                m,
                n,
                self.img(),
                self.model@,
                self.stats.pages as int,
            );
            if old(self).accounted() {
                self.pages_add_up();
            }
        }
    }

    /// The entries that are left once the first `n` targets are gone.
    spec fn removed_so_far(&self, old: &BPlusTree, targets: Seq<Vec<u8>>, n: int) -> bool {
        forall|k: Seq<u8>|
            #![trigger self.model@.map.contains_key(k)]
            self.model@.map.contains_key(k) == (old.model@.map.contains_key(k) && !maps::among(targets, n, k)) && (
            self.model@.map.contains_key(k) ==> self.model@.map[k] == old.model@.map[k])
    }

    /// Everything passed comes before the targets from `n` on.
    spec fn behind(&self, x: int, s: int, targets: Seq<Vec<u8>>, n: int) -> bool {
        forall|k: Seq<u8>, j: int|
            #![trigger self.model@.map.contains_key(k), targets[j]]
            self.passed(x, s, Seq::empty(), k) && n <= j < targets.len() ==> lex::lt(k, targets[j]@)
    }

    /// Skips the targets before `key`, which is at slot `s` of leaf `x`.
    fn skip_targets(&self, targets: &Vec<Vec<u8>>, from: usize, key: &Vec<u8>, Ghost(start): Ghost<BPlusTree>, Ghost(x): Ghost<int>, Ghost(s): Ghost<int>) -> (n:
        usize)
        requires
            self.base(None),
            0 <= x < self.model@.leaves.len(),
            0 <= s < page::cells(true, self.img()[self.model@.leaves[x]]).len(),
            key@ == page::key_of(true, page::cells(true, self.img()[self.model@.leaves[x]])[s]),
            from <= targets@.len(),
            self.removed_so_far(&start, targets@, from as int),
            self.behind(x, s, targets@, from as int),
        ensures
            from <= n <= targets@.len(),
            self.removed_so_far(&start, targets@, n as int),
            self.behind(x, s, targets@, n as int),
            n < targets@.len() ==> !lex::lt(targets@[n as int]@, key@),
    {
        let mut n: usize = from;
        while n < targets.len() && matches!(lex::compare_bytes(targets[n].as_slice(), key.as_slice()), lex::Order::Less)
            invariant
                self.base(None),
                0 <= x < self.model@.leaves.len(),
                0 <= s < page::cells(true, self.img()[self.model@.leaves[x]]).len(),
                key@ == page::key_of(true, page::cells(true, self.img()[self.model@.leaves[x]])[s]),
                from <= n <= targets@.len(),
                self.removed_so_far(&start, targets@, n as int),
                self.behind(x, s, targets@, n as int),
            decreases targets@.len() - n,
        {
            proof {
                let t = targets@[n as int]@;
                let zero = Seq::<u8>::empty();
                lex::order_laws();
                if self.model@.map.contains_key(t) {
                    self.lemma_end_passed(x, s, zero, key@, t);
                }
                assert forall|k: Seq<u8>| #![trigger self.model@.map.contains_key(k)]
                    self.model@.map.contains_key(k) == (start.model@.map.contains_key(k) && !maps::among(
                        targets@,
                        n + 1,
                        k,
                    )) && (self.model@.map.contains_key(k) ==> self.model@.map[k] == start.model@.map[k]) by {
                    Self::lemma_among_step(targets@, n as int, k);
                }
            }
            n = n + 1;
        }
        proof {
            lex::order_laws();
        }
        n
    }

    proof fn lemma_among_step(targets: Seq<Vec<u8>>, n: int, k: Seq<u8>)
        requires
            0 <= n < targets.len(),
        ensures
            maps::among(targets, n + 1, k) == (maps::among(targets, n, k) || targets[n]@ == k),
    {
        if maps::among(targets, n, k) {
            let i = choose|i: int| 0 <= i < n && i < targets.len() && #[trigger] targets[i]@ == k;
            assert(0 <= i < n + 1 && targets[i]@ == k);
        }
        if targets[n]@ == k {
            assert(maps::among(targets, n + 1, k));
        }
    }

    /// Deletes the given keys, which do not fall, in one pass over the leaf chain; then
    /// frees the leaves that became empty and builds the internal levels anew. Gives the
    /// number of entries deleted.
    #[verifier::rlimit(60)]
    pub fn bulk_delete_sorted(&mut self, targets: &Vec<Vec<u8>>) -> (removed: usize)
        requires
            old(self).wf(),
            maps::rising(targets@),
        ensures
            final(self).wf(),
            forall|k: Seq<u8>|
                #![trigger final(self)@.contains_key(k)]
                final(self)@.contains_key(k) == (old(self)@.contains_key(k) && !maps::among(
                    targets@,
                    targets@.len() as int,
                    k,
                )) && (final(self)@.contains_key(k) ==> final(self)@[k] == old(self)@[k]),
            removed == old(self)@.len() - final(self)@.len(),
            final(self).config_view() == old(self).config_view(),
            removed == 0 ==> *final(self) == *old(self),
            removed > 0 ==> if old(self).relinks() {
                old(self).relinked(final(self))
            } else {
                &&& final(self).leaf_keys() == btree_model::left_of(old(self).leaf_keys(), final(self)@.dom())
                &&& final(self).page_count() == old(self).page_count()
            },
            old(self).accounted() ==> final(self).accounted(),
    {
        let ghost start = *self;
        let mut removed: usize = 0;
        let mut t: usize = 0;
        let mut p: u64 = self.first_leaf();
        let ghost mut x: int = 0;
        let ghost zero = Seq::<u8>::empty();
        let mut i: usize = 0;
        proof {
            reveal(btree_model::chain_inv);
            self.lemma_leaf_facts(0);
            lex::order_laws();
        }
        while p != 0 && t < targets.len()
            invariant_except_break
                p != 0 ==> {
                    &&& 0 <= x < self.model@.leaves.len()
                    &&& self.model@.leaves[x] == p
                    &&& i <= page::cells(true, self.img()[p as int]).len()
                    &&& self.behind(x, i as int, targets@, t as int)
                },
                p == 0 ==> self.removed_so_far(&start, targets@, targets@.len() as int),
            invariant
                self.wf(),
                maps::rising(targets@),
                zero == Seq::<u8>::empty(),
                0 <= t <= targets@.len(),
                self.config == start.config,
                self.model@.leaves == start.model@.leaves,
                self.stats.pages == start.stats.pages,
                self.keeps_pages(&start),
                removed == 0 ==> *self == start,
                forall|q: int| #[trigger]
                    btree_model::is_tree(start.model@, q) ==> btree_model::is_tree(self.model@, q)
                        && self.model@.kind[q] == start.model@.kind[q],
                removed + self.stats.entries == start.stats.entries,
                self.removed_so_far(&start, targets@, t as int),
            ensures
                self.removed_so_far(&start, targets@, targets@.len() as int),
            decreases (if p == 0 {
                0
            } else {
                self.model@.leaves.len() - x
            }), page::cells(true, self.img()[p as int]).len() - i,
        {
            let ghost before = *self;
            proof {
                self.lemma_leaf_facts(x);
            }
            let count: usize = page::read_count(self.page_bytes(p));
            if i < count {
                let key: Vec<u8> = page::read_key(self.page_bytes(p), true, i);
                t = self.skip_targets(targets, t, &key, Ghost(start), Ghost(x), Ghost(i as int));
                if t < targets.len() && lex::same_bytes(targets[t].as_slice(), key.as_slice()) {
                    self.delete_at(p, i);
                    removed = removed + 1;
                    proof {
                        assert forall|q: int| #[trigger]
                            btree_model::is_tree(start.model@, q) implies btree_model::is_tree(self.model@, q)
                            && self.model@.kind[q] == start.model@.kind[q] by {
                            assert(btree_model::is_tree(before.model@, q));
                        }
                        before.lemma_delete_step(&start, self, targets@, t as int, x, i as int, p as int, key@);
                    }
                    t = t + 1;
                } else {
                    proof {
                        before.lemma_keep_step(targets@, t as int, x, i as int, key@);
                    }
                    i = i + 1;
                }
            } else {
                let next: u64 = le::rd_u64(self.page_bytes(p).as_slice(), 8);
                proof {
                    if next == 0 {
                        assert(x == self.model@.leaves.len() - 1) by {
                            if x + 1 < self.model@.leaves.len() {
                                self.lemma_leaf_facts(x + 1);
                            }
                        }
                        self.lemma_chain_end(&start, targets@, t as int, i as int);
                    } else {
                        self.lemma_leaf_facts(x + 1);
                        assert forall|k: Seq<u8>, j: int|
                            #![trigger self.model@.map.contains_key(k), targets@[j]]
                            self.passed(x + 1, 0, zero, k) && t <= j < targets@.len() implies lex::lt(k, targets@[j]@) by {
                            self.lemma_next_leaf_passed(x, zero, k);
                        }
                        x = x + 1;
                    }
                }
                p = next;
                i = 0;
            }
        }
        if removed > 0 {
            proof {
                btree_model::lemma_leaf_count(self.img(), self.model@, self.stats.pages as int);
                assert(self.leaf_keys() =~= btree_model::left_of(start.leaf_keys(), self@.dom())) by {
                    assert forall|i: int| 0 <= i < self.model@.leaves.len() implies btree_model::keys_at(
                        self.model@,
                        #[trigger] self.model@.leaves[i],
                    ) == btree_model::keys_at(start.model@, start.model@.leaves[i]).intersect(self@.dom()) by {
                        let p = self.model@.leaves[i];
                        start.lemma_leaf_facts(i);
                        assert(btree_model::is_tree(start.model@, p));
                        assert(btree_model::keys_at(self.model@, p) =~= btree_model::keys_at(
                            start.model@,
                            p,
                        ).intersect(self@.dom()));
                    }
                }
            }
            if self.stats.pages + 2 * self.stats.leaf_pages <= MAX_PAGES {
                self.rebuild_internal_from_leaves();
                proof {
                    if self.model@.leaves.len() == 1 {
                        assert(btree_model::inner_set(self.model@) =~= Set::<int>::empty());
                    }
                }
            }
        }
        removed
    }

    /// The keys that each leaf holds, from left to right.
    pub closed spec fn leaf_keys(&self) -> Seq<Set<Seq<u8>>> {
        btree_model::groups(self.model@, self.model@.leaves)
    }

    /// The number of internal pages.
    pub closed spec fn inner_pages(&self) -> nat {
        btree_model::inner_set(self.model@).len()
    }

    /// The number of pages that large values take.
    pub closed spec fn value_page_count(&self) -> nat {
        btree_model::extent_set(self.model@).len()
    }

    /// No page is lost: each is in use or on the freelist.
    pub closed spec fn accounted(&self) -> bool {
        btree_model::all_used(self.model@, self.stats.pages as int)
    }

    /// No internal page but the last of its level has room for another child.
    pub closed spec fn inner_packed(&self) -> bool {
        self.inner_full()
    }

    /// The free pages are all but the meta page, the leaves, the internal pages and those of large
    /// values.
    pub open spec fn pages_counted(&self) -> bool {
        self.stats_view().free_pages == self.page_count() - 1 - self.stats_view().leaf_pages - self.inner_pages()
            - self.value_page_count()
    }

    /// The internal levels can be built anew without more pages than a tree can have.
    pub open spec fn relinks(&self) -> bool {
        self.page_count() + 2 * self.stats_view().leaf_pages <= MAX_PAGES
    }

    /// The leaves without entries were freed, one leaf at the least being left, and the internal
    /// levels built anew, from the freelist as long as it had pages.
    pub open spec fn relinked(&self, to: &Self) -> bool {
        &&& to.leaf_keys() == btree_model::held(btree_model::left_of(self.leaf_keys(), to@.dom()))
        &&& to.stats_view().leaf_pages == to.leaf_keys().len()
        &&& self.accounted() ==> to.pages_counted()
        &&& to.page_count() >= self.page_count()
        &&& to.page_count() > self.page_count() ==> to.stats_view().free_pages == 0
        &&& to.leaf_keys().len() == 1 ==> to.inner_pages() == 0
        &&& to.inner_packed()
    }

    /// There is one group of keys for each leaf, the groups are apart, and together they are the
    /// keys of the tree.
    pub proof fn leaf_keys_cover_the_tree(&self)
        requires
            self.wf(),
        ensures
            self.leaf_keys().len() == self.stats_view().leaf_pages,
            self.leaf_keys().len() >= 1,
            forall|i: int, k: Seq<u8>|
                0 <= i < self.leaf_keys().len() && #[trigger] self.leaf_keys()[i].contains(k) ==> self@.contains_key(k),
            forall|k: Seq<u8>| #[trigger]
                self@.contains_key(k) ==> exists|i: int|
                    0 <= i < self.leaf_keys().len() && #[trigger] self.leaf_keys()[i].contains(k),
            forall|i: int, j: int, a: Seq<u8>, b: Seq<u8>|
                #![trigger self.leaf_keys()[i].contains(a), self.leaf_keys()[j].contains(b)]
                0 <= i < j < self.leaf_keys().len() && self.leaf_keys()[i].contains(a) && self.leaf_keys()[j].contains(b)
                    ==> lex::lt(a, b),
    {
        let m = self.model@;
        reveal(btree_model::chain_inv);
        lex::order_laws();
        assert forall|k: Seq<u8>| #[trigger] self@.contains_key(k) implies exists|i: int|
            0 <= i < self.leaf_keys().len() && #[trigger] self.leaf_keys()[i].contains(k) by {
            let i = self.lemma_leaf_of(k);
            assert(self.leaf_keys()[i].contains(k));
        }
        assert forall|i: int, j: int, a: Seq<u8>, b: Seq<u8>|
            #![trigger self.leaf_keys()[i].contains(a), self.leaf_keys()[j].contains(b)]
            0 <= i < j < self.leaf_keys().len() && self.leaf_keys()[i].contains(a) && self.leaf_keys()[j].contains(
                b,
            ) implies lex::lt(a, b) by {
            assert(btree_model::before(m, m.leaves[i], m.leaves[j]));
        }
    }

    /// The leaf whose range a key lies in.
    proof fn lemma_leaf_of(&self, k: Seq<u8>) -> (i: int)
        requires
            self.wf(),
        ensures
            0 <= i < self.model@.leaves.len(),
            btree_model::in_range(
                k,
                btree_model::node(self.model@, self.model@.leaves[i]).lo,
                btree_model::node(self.model@, self.model@.leaves[i]).hi,
            ),
    {
        reveal(btree_model::chain_inv);
        self.lemma_leaf_facts(0);
        self.lemma_leaf_from(k, 0)
    }

    proof fn lemma_leaf_from(&self, k: Seq<u8>, x: int) -> (i: int)
        requires
            self.wf(),
            0 <= x < self.model@.leaves.len(),
            btree_model::node(self.model@, self.model@.leaves[x]).lo is Some ==> !lex::lt(
                k,
                btree_model::node(self.model@, self.model@.leaves[x]).lo->0,
            ),
        ensures
            0 <= i < self.model@.leaves.len(),
            btree_model::in_range(
                k,
                btree_model::node(self.model@, self.model@.leaves[i]).lo,
                btree_model::node(self.model@, self.model@.leaves[i]).hi,
            ),
        decreases self.model@.leaves.len() - x,
    {
        self.lemma_leaf_facts(x);
        let hi = btree_model::node(self.model@, self.model@.leaves[x]).hi;
        if hi is Some && !lex::lt(k, hi->0) {
            self.lemma_leaf_facts(x + 1);
            self.lemma_leaf_from(k, x + 1)
        } else {
            x
        }
    }

    /// The leaves from left to right.
    pub closed spec fn chain(&self) -> Seq<int> {
        self.model@.leaves
    }

    /// The links of the leaves lead through all of them, from the first to the last and back, and
    /// the meta page names the last.
    pub proof fn leaves_are_chained(&self)
        requires
            self.wf(),
        ensures
            self.chain().len() == self.leaf_keys().len(),
            self.chain().len() >= 1,
            self.chain().no_duplicates(),
            forall|i: int|
                0 <= i < self.chain().len() ==> btree_model::next_of(self.img()[#[trigger] self.chain()[i]]) == (if i + 1
                    < self.chain().len() {
                    self.chain()[i + 1]
                } else {
                    0
                }),
            forall|i: int|
                0 <= i < self.chain().len() ==> btree_model::prev_of(self.img()[#[trigger] self.chain()[i]]) == (if i
                    > 0 {
                    self.chain()[i - 1]
                } else {
                    0
                }),
            meta_of(self.img()[0]).rightmost == self.chain().last(),
    {
        reveal(btree_model::chain_inv);
        let ls = self.model@.leaves;
        assert forall|i: int| 0 <= i < ls.len() implies #[trigger] btree_model::link_ok(self.img(), self.model@, i) by {}
        assert forall|i: int| 0 <= i < ls.len() implies btree_model::next_of(self.img()[#[trigger] ls[i]]) == (if i + 1
            < ls.len() {
            ls[i + 1]
        } else {
            0
        }) && btree_model::prev_of(self.img()[ls[i]]) == (if i > 0 {
            ls[i - 1]
        } else {
            0
        }) by {
            assert(btree_model::link_ok(self.img(), self.model@, i));
        }
        assert forall|i: int, j: int| 0 <= i < ls.len() && 0 <= j < ls.len() && i != j implies ls[i] != ls[j] by {
            if i < j {
                assert(btree_model::before(self.model@, ls[i], ls[j]));
            } else {
                assert(btree_model::before(self.model@, ls[j], ls[i]));
            }
        }
    }

    /// From the root, the children lead to a leaf that holds the key, for each key of the tree.
    pub proof fn every_key_is_reached_from_the_root(&self, k: Seq<u8>)
        requires
            self.wf(),
            self@.contains_key(k),
        ensures
            self.tree().tops[0] == meta_of(self.img()[0]).root,
            exists|path: Seq<u64>, leaf: int| #[trigger]
                btree_model::path_ok(self.img(), self.tree(), path, leaf) && self.chain().contains(leaf)
                    && btree_model::has_key(page::cells(true, self.img()[leaf]), k),
    {
        reveal(btree_model::tops_inv);
        assert(btree_model::top_ok(self.model@, None, 0));
        assert(btree_model::path_ok(self.img(), self.model@, Seq::<u64>::empty(), self.model@.tops[0]));
        let (path, leaf) = self.lemma_reach(k, Seq::empty(), self.model@.tops[0]);
        assert(btree_model::leaf_inv(self.img(), self.model@, leaf));
        reveal(btree_model::leaf_inv);
        reveal(btree_model::chain_inv);
        assert(btree_model::path_ok(self.img(), self.tree(), path, leaf));
    }

    proof fn lemma_reach(&self, k: Seq<u8>, path: Seq<u64>, p: int) -> (r: (Seq<u64>, int))
        requires
            self.wf(),
            btree_model::path_ok(self.img(), self.model@, path, p),
            btree_model::in_range(k, btree_model::node(self.model@, p).lo, btree_model::node(self.model@, p).hi),
        ensures
            btree_model::path_ok(self.img(), self.model@, r.0, r.1),
            btree_model::is_leaf(self.model@, r.1),
            btree_model::in_range(k, btree_model::node(self.model@, r.1).lo, btree_model::node(self.model@, r.1).hi),
        decreases btree_model::node(self.model@, p).level,
    {
        let m = self.model@;
        if btree_model::node(m, p).level == 0 {
            (path, p)
        } else {
            assert(btree_model::is_inner(m, p));
            assert(btree_model::inner_inv(self.img(), m, None, p));
            assert(1 <= p < self.stats.pages);
            let i = self.lemma_turn(k, p, 0);
            btree_model::lemma_route(self.img(), m, p, k, i);
            let c = btree_model::kid(self.img()[p], i);
            let longer = path.push(p as u64);
            assert(btree_model::listed(self.img(), p, c));
            assert forall|a: int, b: int| 0 <= a && b == a + 1 && b < longer.len() implies btree_model::node(
                m,
                #[trigger] longer[b] as int,
            ).parent == #[trigger] longer[a] && btree_model::listed(
                self.img(),
                longer[a] as int,
                longer[b] as int,
            ) by {
                assert(longer[a] == path[a]);
                if b < path.len() {
                    assert(longer[b] == path[b]);
                }
            }
            self.lemma_reach(k, longer, c)
        }
    }

    /// The child of `p` to which the separators lead.
    proof fn lemma_turn(&self, k: Seq<u8>, p: int, from: int) -> (i: int)
        requires
            0 <= from <= page::cells(false, self.img()[p]).len(),
            from > 0 ==> !lex::lt(k, btree_model::sep(self.img()[p], from - 1)),
        ensures
            0 <= i <= page::cells(false, self.img()[p]).len(),
            i > 0 ==> !lex::lt(k, btree_model::sep(self.img()[p], i - 1)),
            i < page::cells(false, self.img()[p]).len() ==> lex::lt(k, btree_model::sep(self.img()[p], i)),
        decreases page::cells(false, self.img()[p]).len() - from,
    {
        if from < page::cells(false, self.img()[p]).len() && !lex::lt(k, btree_model::sep(self.img()[p], from)) {
            self.lemma_turn(k, p, from + 1)
        } else {
            from
        }
    }

    /// No page is on the freelist twice, and none is both free and in use, so that a page that is
    /// taken from the freelist holds nothing.
    pub proof fn free_pages_are_not_in_use(&self)
        requires
            self.wf(),
        ensures
            self.tree().free.no_duplicates(),
            self.tree().free.len() == self.stats_view().free_pages,
            forall|i: int|
                0 <= i < self.tree().free.len() ==> !btree_model::is_tree(self.tree(), #[trigger] self.tree().free[i])
                    && !btree_model::is_extent(self.tree(), self.tree().free[i]) && 1 <= self.tree().free[i]
                    < self.page_count(),
    {
        reveal(btree_model::free_inv);
        let fs = self.model@.free;
        assert forall|i: int| 0 <= i < fs.len() implies self.model@.kind.contains_key(#[trigger] fs[i])
            && self.model@.kind[fs[i]] == Kind::Free by {
            assert(btree_model::free_ok(self.img(), self.model@, i));
        }
        assert forall|i: int, j: int| 0 <= i < fs.len() && 0 <= j < fs.len() && i != j implies fs[i] != fs[j] by {
            if i < j {
                assert(fs[i] != fs[j]);
            } else {
                assert(fs[j] != fs[i]);
            }
        }
    }

    /// A tree whose internal levels were built anew leads through exactly the leaves that held an
    /// entry, or one that holds none: along their links, and from the root to every key that is left.
    /// No page is free twice, or both free and in use.
    pub proof fn relinked_tree_reaches_what_is_left(&self, to: &Self)
        requires
            self.wf(),
            to.wf(),
            self.relinked(to),
        ensures
            to.leaf_keys() == btree_model::held(btree_model::left_of(self.leaf_keys(), to@.dom())),
            to.chain().len() == to.leaf_keys().len(),
            to.chain().no_duplicates(),
            to.leaf_keys().len() > 1 ==> forall|i: int|
                0 <= i < to.leaf_keys().len() ==> #[trigger] to.leaf_keys()[i] != Set::<Seq<u8>>::empty(),
            forall|i: int|
                0 <= i < to.chain().len() ==> btree_model::next_of(to.img()[#[trigger] to.chain()[i]]) == (if i + 1
                    < to.chain().len() {
                    to.chain()[i + 1]
                } else {
                    0
                }) && btree_model::prev_of(to.img()[to.chain()[i]]) == (if i > 0 {
                    to.chain()[i - 1]
                } else {
                    0
                }),
            meta_of(to.img()[0]).rightmost == to.chain().last(),
            forall|k: Seq<u8>| #[trigger]
                to@.contains_key(k) ==> exists|path: Seq<u64>, leaf: int| #[trigger]
                    btree_model::path_ok(to.img(), to.tree(), path, leaf) && to.chain().contains(leaf)
                        && btree_model::has_key(page::cells(true, to.img()[leaf]), k),
            to.tree().free.no_duplicates(),
            forall|i: int|
                0 <= i < to.tree().free.len() ==> !btree_model::is_tree(to.tree(), #[trigger] to.tree().free[i])
                    && !btree_model::is_extent(to.tree(), to.tree().free[i]),
    {
        to.leaves_are_chained();
        to.free_pages_are_not_in_use();
        let gs = btree_model::left_of(self.leaf_keys(), to@.dom());
        assert forall|i: int|
            to.leaf_keys().len() > 1 && 0 <= i < to.leaf_keys().len() implies #[trigger] to.leaf_keys()[i] != Set::<
            Seq<u8>,
        >::empty() by {
            btree_model::lemma_held(gs, i);
        }
        assert forall|k: Seq<u8>| #[trigger] to@.contains_key(k) implies exists|path: Seq<u64>, leaf: int| #[trigger]
            btree_model::path_ok(to.img(), to.tree(), path, leaf) && to.chain().contains(leaf) && btree_model::has_key(
                page::cells(true, to.img()[leaf]),
                k,
            ) by {
            to.every_key_is_reached_from_the_root(k);
        }
    }

    /// Where no page is lost, the pages are the meta page, the leaves, the internal pages, those of
    /// large values and the free ones.
    pub proof fn pages_add_up(&self)
        requires
            self.wf(),
            self.accounted(),
        ensures
            self.page_count() == 1 + self.stats_view().leaf_pages + self.inner_pages() + self.value_page_count()
                + self.stats_view().free_pages,
            self.pages_counted(),
    {
        btree_model::lemma_pages_add_up(self.img(), self.model@, self.stats.pages as int);
    }

    /// The configuration.
    pub closed spec fn config_view(&self) -> BPlusTreeConfig {
        self.config
    }

    proof fn lemma_chain_end(&self, start: &BPlusTree, targets: Seq<Vec<u8>>, t: int, i: int)
        requires
            self.wf(),
            0 <= t <= targets.len(),
            self.removed_so_far(start, targets, t),
            self.model@.leaves.len() >= 1,
            i == page::cells(true, self.img()[self.model@.leaves.last()]).len(),
            self.behind(self.model@.leaves.len() - 1, i, targets, t),
        ensures
            self.removed_so_far(start, targets, targets.len() as int),
    {
        let zero = Seq::<u8>::empty();
        let n = targets.len() as int;
        lex::order_laws();
        assert forall|k: Seq<u8>|
            #![trigger self.model@.map.contains_key(k)]
            self.model@.map.contains_key(k) == (start.model@.map.contains_key(k) && !maps::among(targets, n, k)) && (
            self.model@.map.contains_key(k) ==> self.model@.map[k] == start.model@.map[k]) by {
            if maps::among(targets, n, k) && !maps::among(targets, t, k) {
                let j = choose|j: int| 0 <= j < n && j < targets.len() && #[trigger] targets[j]@ == k;
                assert(j >= t);
                self.lemma_all_passed(zero, k);
                if self.model@.map.contains_key(k) {
                    assert(lex::lt(k, targets[j]@));
                }
            }
            if maps::among(targets, t, k) {
                let j = choose|j: int| 0 <= j < t && j < targets.len() && #[trigger] targets[j]@ == k;
                assert(0 <= j < n && targets[j]@ == k);
            }
        }
    }

    /// A key that is kept lies before the targets to come.
    proof fn lemma_keep_step(&self, targets: Seq<Vec<u8>>, t: int, x: int, i: int, key: Seq<u8>)
        requires
            self.base(None),
            maps::rising(targets),
            0 <= t <= targets.len(),
            0 <= x < self.model@.leaves.len(),
            0 <= i < page::cells(true, self.img()[self.model@.leaves[x]]).len(),
            key == page::key_of(true, page::cells(true, self.img()[self.model@.leaves[x]])[i]),
            self.behind(x, i, targets, t),
            t < targets.len() ==> !lex::lt(targets[t]@, key) && targets[t]@ != key,
        ensures
            self.behind(x, i + 1, targets, t),
    {
        lex::order_laws();
        let zero = Seq::<u8>::empty();
        let p = self.model@.leaves[x];
        let cs = page::cells(true, self.img()[p]);
        let lo = btree_model::node(self.model@, p).lo;
        assert forall|k: Seq<u8>, j: int|
            #![trigger self.model@.map.contains_key(k), targets[j]]
            self.passed(x, i + 1, zero, k) && t <= j < targets.len() implies lex::lt(k, targets[j]@) by {
            if !self.passed(x, i, zero, k) {
                let u = choose|u: int| 0 <= u < i + 1 && u < cs.len() && page::key_of(true, #[trigger] cs[u]) == k;
                assert(u == i) by {
                    if u < i {
                        assert(self.pos_lt(x, i, k));
                    }
                }
                if j > t {
                    assert(lex::le(targets[t]@, targets[j]@));
                }
            }
        }
    }

    /// A key that was deleted: what was passed stays passed.
    proof fn lemma_delete_step(
        &self,
        start: &BPlusTree,
        new: &BPlusTree,
        targets: Seq<Vec<u8>>,
        t: int,
        x: int,
        i: int,
        p: int,
        key: Seq<u8>,
    )
        requires
            self.base(None),
            maps::rising(targets),
            0 <= t < targets.len(),
            targets[t]@ == key,
            0 <= x < self.model@.leaves.len(),
            self.model@.leaves[x] == p,
            0 <= i < page::cells(true, self.img()[p]).len(),
            key == page::key_of(true, page::cells(true, self.img()[p])[i]),
            self.behind(x, i, targets, t),
            self.removed_so_far(start, targets, t),
            new.model@.leaves == self.model@.leaves,
            new.model@.map == self.model@.map.remove(key),
            page::cells(true, new.img()[p]) == page::cells(true, self.img()[p]).remove(i),
            new.model@.kind[p] == self.model@.kind[p],
        ensures
            new.behind(x, i, targets, t + 1),
            new.removed_so_far(start, targets, t + 1),
    {
        let zero = Seq::<u8>::empty();
        let cs = page::cells(true, self.img()[p]);
        let ds = page::cells(true, new.img()[p]);
        assert forall|k: Seq<u8>, j: int|
            #![trigger new.model@.map.contains_key(k), targets[j]]
            new.passed(x, i, zero, k) && t + 1 <= j < targets.len() implies lex::lt(k, targets[j]@) by {
            assert(self.model@.map.contains_key(k));
            if new.pos_lt(x, i, k) && !(btree_model::node(new.model@, p).lo is Some && lex::lt(
                k,
                btree_model::node(new.model@, p).lo->0,
            )) {
                let u = choose|u: int| 0 <= u < i && u < ds.len() && page::key_of(true, #[trigger] ds[u]) == k;
                assert(ds[u] == cs[u]);
                assert(self.pos_lt(x, i, k));
            }
            assert(self.passed(x, i, zero, k));
        }
        assert forall|k: Seq<u8>|
            #![trigger new.model@.map.contains_key(k)]
            new.model@.map.contains_key(k) == (start.model@.map.contains_key(k) && !maps::among(targets, t + 1, k)) && (
            new.model@.map.contains_key(k) ==> new.model@.map[k] == start.model@.map[k]) by {
            Self::lemma_among_step(targets, t, k);
            assert(self.model@.map.contains_key(k) == (start.model@.map.contains_key(k) && !maps::among(targets, t, k)));
        }
    }

    // ---- persistence ------------------------------------------------------

    /// Page by page, the bytes of an image. What is left behind the last whole page does not count.
    pub open spec fn pages_of(bytes: Seq<u8>) -> Seq<Seq<u8>> {
        Seq::new(
            (bytes.len() / PAGE_SIZE as nat) as nat,
            |i: int| bytes.subrange(i * PAGE_SIZE, (i + 1) * PAGE_SIZE),
        )
    }

    /// The pages hold the complete tree `m`.
    pub closed spec fn image_wf(img: Seq<Seq<u8>>, m: Model) -> bool {
        let mt = meta_of(img[0]);
        &&& btree_model::inv(img, m, None, mt.pages as int)
        &&& mt.pages <= MAX_PAGES
        &&& le::u32_at(img[0], 0) == MAGIC
        &&& mt.free_head == (if m.free.len() > 0 {
            m.free[0]
        } else {
            0
        })
        &&& mt.free_pages == m.free.len()
        &&& mt.rightmost == m.leaves.last()
        &&& mt.leaf_pages == m.leaves.len()
        &&& mt.leaf_bytes == btree_model::leaf_bytes(img, m.leaves)
        &&& m.tops.len() == 1
        &&& mt.root == m.tops[0]
        &&& m.map.dom().finite()
        &&& mt.entries == m.map.len()
        &&& mt.entries <= usize::MAX
        &&& map_storable(m.map)
    }

    /// The bytes are the image of a tree with the entries of `map`.
    pub open spec fn valid_image(bytes: Seq<u8>, map: Map<Seq<u8>, Seq<u8>>) -> bool {
        exists|m: Model| #[trigger] Self::image_wf(Self::pages_of(bytes), m) && m.map == map
    }

    /// The bytes begin as those of a tree do.
    pub open spec fn has_magic(bytes: Seq<u8>) -> bool {
        bytes.len() >= PAGE_SIZE && le::u32_at(bytes, 0) == MAGIC
    }

    /// The image of a tree begins as one does.
    pub proof fn lemma_begins(bytes: Seq<u8>, map: Map<Seq<u8>, Seq<u8>>)
        requires
            Self::valid_image(bytes, map),
        ensures
            Self::has_magic(bytes),
    {
        let img = Self::pages_of(bytes);
        let m = choose|m: Model| #[trigger] Self::image_wf(img, m) && m.map == map;
        assert(m.leaves.len() >= 1) by {
            reveal(btree_model::chain_inv);
        }
        assert(img.len() >= 1);
        assert(bytes.len() >= PAGE_SIZE);
        assert(img[0] == bytes.subrange(0, PAGE_SIZE as int));
        le::lemma_u32_same(img[0], bytes, 0, 0);
    }

    /// Two trees on the same pages have the same entries.
    proof fn lemma_image_unique(img: Seq<Seq<u8>>, m: Model, w: Model)
        requires
            Self::image_wf(img, m),
            Self::image_wf(img, w),
        ensures
            m.map == w.map,
    {
        assert(m.leaves.len() >= 1 && w.leaves.len() >= 1) by {
            reveal(btree_model::chain_inv);
        }
        Self::lemma_same_chain(img, m, w, 0);
        Self::lemma_same_chain(img, w, m, 0);
        assert forall|k: Seq<u8>| #[trigger] m.map.contains_key(k) implies w.map.contains_key(k) && w.map[k] == m.map[k] by {
            Self::lemma_image_has(img, m, w, k);
        }
        assert forall|k: Seq<u8>| #[trigger] w.map.contains_key(k) implies m.map.contains_key(k) by {
            Self::lemma_image_has(img, w, m, k);
        }
        assert(m.map =~= w.map);
    }

    /// Bytes are the image of trees with the same entries only.
    pub proof fn lemma_one_map(bytes: Seq<u8>, a: Map<Seq<u8>, Seq<u8>>, b: Map<Seq<u8>, Seq<u8>>)
        requires
            Self::valid_image(bytes, a),
            Self::valid_image(bytes, b),
        ensures
            a == b,
    {
        let m = choose|m: Model| #[trigger] Self::image_wf(Self::pages_of(bytes), m) && m.map == a;
        let w = choose|m: Model| #[trigger] Self::image_wf(Self::pages_of(bytes), m) && m.map == b;
        Self::lemma_image_unique(Self::pages_of(bytes), m, w);
    }

    /// The pages say everything: trees on the same pages have the same entries, the same counters
    /// and the same room. So a tree that is kept and opened again has the counters that it had.
    pub proof fn pages_determine_tree(a: BPlusTree, b: BPlusTree)
        requires
            a.wf(),
            b.wf(),
            a.img() == b.img(),
        ensures
            a@ == b@,
            a.stats_view() == b.stats_view(),
            a.page_count() == b.page_count(),
            a.height() == b.height(),
    {
        Self::lemma_image_unique(a.img(), a.model@, b.model@);
        assert(btree_model::top_ok(a.model@, None, 0) && btree_model::top_ok(b.model@, None, 0)) by {
            reveal(btree_model::tops_inv);
        }
        btree_model::lemma_same_level(
            a.img(),
            a.model@,
            b.model@,
            a.stats.pages as int,
            b.stats.pages as int,
            a.model@.tops[0],
        );
    }

    /// The leaf `d` places before the last one is the same in both.
    proof fn lemma_same_chain(img: Seq<Seq<u8>>, m: Model, w: Model, d: int)
        requires
            Self::image_wf(img, m),
            Self::image_wf(img, w),
            0 <= d < m.leaves.len(),
            d < w.leaves.len(),
            m.leaves[m.leaves.len() - 1 - d] == w.leaves[w.leaves.len() - 1 - d],
        ensures
            forall|i: int| d <= i < m.leaves.len() ==> i < w.leaves.len() && #[trigger] m.leaves[m.leaves.len() - 1 - i]
                == w.leaves[w.leaves.len() - 1 - i],
        decreases m.leaves.len() - d,
    {
        let a = m.leaves.len() - 1 - d;
        let b = w.leaves.len() - 1 - d;
        btree_model::lemma_chain_facts(img, m, a, a);
        btree_model::lemma_chain_facts(img, w, b, b);
        if a > 0 {
            btree_model::lemma_chain_facts(img, m, a - 1, a);
            if b == 0 {
                assert(false);
            }
            btree_model::lemma_chain_facts(img, w, b - 1, b);
            Self::lemma_same_chain(img, m, w, d + 1);
        }
    }

    proof fn lemma_image_has(img: Seq<Seq<u8>>, m: Model, w: Model, k: Seq<u8>)
        requires
            Self::image_wf(img, m),
            Self::image_wf(img, w),
            m.map.contains_key(k),
            forall|i: int| 0 <= i < m.leaves.len() ==> i < w.leaves.len() && #[trigger] m.leaves[m.leaves.len() - 1 - i]
                == w.leaves[w.leaves.len() - 1 - i],
        ensures
            w.map.contains_key(k),
            w.map[k] == m.map[k],
    {
        assert(m.leaves.len() >= 1) by {
            reveal(btree_model::chain_inv);
        }
        btree_model::lemma_chain_facts(img, m, 0, 0);
        let x = btree_model::lemma_some_leaf(img, m, k, 0);
        let p = m.leaves[x];
        let i = m.leaves.len() - 1 - x;
        assert(m.leaves[m.leaves.len() - 1 - i] == w.leaves[w.leaves.len() - 1 - i]);
        btree_model::lemma_chain_facts(img, w, w.leaves.len() - 1 - i, w.leaves.len() - 1 - i);
        reveal(btree_model::leaf_inv);
        assert(btree_model::leaf_inv(img, m, p));
        assert(btree_model::leaf_inv(img, w, p));
        let cs = page::cells(true, img[p]);
        assert(btree_model::has_key(cs, k));
        let t = choose|t: int| 0 <= t < cs.len() && page::key_of(true, #[trigger] cs[t]) == k;
        assert(btree_model::entry_ok(img, m, btree_model::node(m, p), cs[t]));
        assert(btree_model::entry_ok(img, w, btree_model::node(w, p), cs[t]));
    }

    /// A new tree without entries.
    pub fn create(config: BPlusTreeConfig) -> (r: Result<BPlusTree, StorageError>)
        ensures
            match r {
                Ok(t) => config.initial_capacity_pages <= MAX_PAGES && t.wf() && t.config_view() == config && t@
                    == Map::<Seq<u8>, Seq<u8>>::empty() && t.page_count() == 2 && t.height() == 0 && t.accounted(),
                Err(e) => config.initial_capacity_pages > MAX_PAGES && e == StorageError::StorageFull,
            },
    {
        if config.initial_capacity_pages > MAX_PAGES {
            return Err(StorageError::StorageFull);
        }
        let want: u64 = if config.initial_capacity_pages < 2 { 2 } else { config.initial_capacity_pages };
        let mut t: BPlusTree = BPlusTree {
            pages: Vec::new(),
            config,
            stats: BPlusTreeStats { entries: 0, pages: 0, free_pages: 0, leaf_pages: 0, leaf_entry_bytes: 0 },
            model: Ghost(btree_model::fresh_model()),
        };
        t.ensure_capacity(want);
        let ghost mid = t;
        assert(t.pages@.len() == t.pages.len());
        assert(t.img()[0].len() == PAGE_SIZE);
        le::wr_u32(&mut t.pages[0], 0, MAGIC);
        proof {
            assert(mid.img()[0].len() == PAGE_SIZE);
            assert forall|i: int| 0 <= i < t.img().len() implies (#[trigger] t.img()[i]).len() == PAGE_SIZE by {
                if i != 0 {
                    assert(t.img()[i] == mid.img()[i]);
                }
            }
        }
        t.do_clear();
        Ok(t)
    }

    /// Takes the counters from the meta page.
    fn refresh_stats_from_meta(&mut self)
        requires
            old(self).img().len() > 0,
            old(self).img()[0].len() == PAGE_SIZE,
        ensures
            final(self).pages == old(self).pages,
            final(self).config == old(self).config,
            final(self).model == old(self).model,
            final(self).stats == (BPlusTreeStats {
                entries: old(self).meta().entries as usize,
                pages: old(self).meta().pages,
                free_pages: old(self).meta().free_pages,
                leaf_pages: old(self).meta().leaf_pages,
                leaf_entry_bytes: old(self).meta().leaf_bytes,
            }),
    {
        let entries: usize = self.get_meta(META_ENTRIES) as usize;
        let pages: u64 = self.get_meta(META_PAGES);
        let leaf_pages: u64 = self.get_meta(META_LEAF_PAGES);
        let leaf_entry_bytes: u64 = self.get_meta(META_LEAF_ENTRY_BYTES);
        let free_pages: u64 = self.get_meta(META_FREE_PAGES);
        self.stats = BPlusTreeStats { entries, pages, free_pages, leaf_pages, leaf_entry_bytes };
    }

    /// Takes up the tree of an image. An image that does not begin as that of a tree is
    /// refused; on the image of a tree the entries are those of that tree.
    pub fn open(bytes: &[u8], config: BPlusTreeConfig) -> (r: Result<BPlusTree, StorageError>)
        ensures
            match r {
                Ok(t) => {
                    &&& Self::has_magic(bytes@)
                    &&& t.config_view() == config
                    &&& t.img() == Self::pages_of(bytes@)
                    &&& forall|map: Map<Seq<u8>, Seq<u8>>| #[trigger]
                        Self::valid_image(bytes@, map) ==> t.wf() && t@ == map
                },
                Err(e) => !Self::has_magic(bytes@) && e == StorageError::InvalidData,
            },
    {
        if bytes.len() < PAGE_SIZE || le::rd_u32(bytes, 0) != MAGIC {
            return Err(StorageError::InvalidData);
        }
        let n: usize = bytes.len() / PAGE_SIZE;
        let mut pages: Vec<Vec<u8>> = Vec::new();
        let mut i: usize = 0;
        while i < n
            invariant
                0 <= i <= n,
                n == bytes@.len() / PAGE_SIZE as nat,
                bytes@.len() == bytes.len(),
                pages@.len() == i,
                forall|j: int| 0 <= j < i ==> (#[trigger] pages@[j])@ == bytes@.subrange(j * PAGE_SIZE, (j + 1) * PAGE_SIZE),
            decreases n - i,
        {
            assert((i + 1) * PAGE_SIZE <= bytes@.len());
            let page: Vec<u8> = le::copy_range(bytes, i * PAGE_SIZE, (i + 1) * PAGE_SIZE);
            pages.push(page);
            i = i + 1;
        }
        let ghost model = choose|m: Model| #[trigger] Self::image_wf(Self::pages_of(bytes@), m);
        let mut t: BPlusTree = BPlusTree {
            pages,
            config,
            stats: BPlusTreeStats { entries: 0, pages: 0, free_pages: 0, leaf_pages: 0, leaf_entry_bytes: 0 },
            model: Ghost(model),
        };
        proof {
            assert(t.img() =~= Self::pages_of(bytes@));
            assert(bytes@.subrange(0, PAGE_SIZE as int).len() == PAGE_SIZE);
            assert(t.img()[0] == bytes@.subrange(0 * PAGE_SIZE, (0 + 1) * PAGE_SIZE));
        }
        t.refresh_stats_from_meta();
        proof {
            assert forall|map: Map<Seq<u8>, Seq<u8>>| #[trigger] Self::valid_image(bytes@, map) implies t.wf() && t@
                == map by {
                let m = choose|m: Model| #[trigger] Self::image_wf(Self::pages_of(bytes@), m) && m.map == map;
                assert(Self::image_wf(Self::pages_of(bytes@), model));
                Self::lemma_image_unique(Self::pages_of(bytes@), m, model);
                assert(t.img() =~= Self::pages_of(bytes@));
            }
        }
        Ok(t)
    }

    /// The bytes of all pages, in order.
    pub fn image(&self) -> (bytes: Vec<u8>)
        requires
            self.wf(),
        ensures
            Self::valid_image(bytes@, self@),
            Self::has_magic(bytes@),
            Self::pages_of(bytes@) == self.img(),
    {
        let mut bytes: Vec<u8> = Vec::new();
        let n: usize = self.pages.len();
        let mut i: usize = 0;
        assert forall|j: int| 0 <= j < n implies (#[trigger] self.pages@[j])@.len() == PAGE_SIZE by {
            assert(self.img()[j] == self.pages@[j]@);
        }
        while i < n
            invariant
                0 <= i <= n,
                n == self.pages@.len(),
                forall|j: int| 0 <= j < n ==> (#[trigger] self.pages@[j])@.len() == PAGE_SIZE,
                bytes@.len() == i * PAGE_SIZE,
                forall|j: int| 0 <= j < i ==> #[trigger] bytes@.subrange(j * PAGE_SIZE, (j + 1) * PAGE_SIZE)
                    == self.pages@[j]@,
            decreases n - i,
        {
            let ghost before = bytes@;
            le::push_bytes(&mut bytes, self.pages[i].as_slice());
            proof {
                assert forall|j: int| 0 <= j < i + 1 implies #[trigger] bytes@.subrange(j * PAGE_SIZE, (j + 1) * PAGE_SIZE)
                    == self.pages@[j]@ by {
                    if j < i {
                        assert(before.subrange(j * PAGE_SIZE, (j + 1) * PAGE_SIZE) == self.pages@[j]@);
                        assert(bytes@.subrange(j * PAGE_SIZE, (j + 1) * PAGE_SIZE) =~= before.subrange(
                            j * PAGE_SIZE,
                            (j + 1) * PAGE_SIZE,
                        ));
                    } else {
                        assert(bytes@.subrange(j * PAGE_SIZE, (j + 1) * PAGE_SIZE) =~= self.pages@[j]@);
                    }
                }
            }
            i = i + 1;
        }
        proof {
            assert(Self::pages_of(bytes@) =~= self.img()) by {
                assert forall|j: int| 0 <= j < n implies Self::pages_of(bytes@)[j] == #[trigger] self.img()[j] by {
                    assert(bytes@.subrange(j * PAGE_SIZE, (j + 1) * PAGE_SIZE) == self.pages@[j]@);
                }
            }
            assert(Self::image_wf(self.img(), self.model@));
            assert(bytes@.subrange(0 * PAGE_SIZE, (0 + 1) * PAGE_SIZE) == self.pages@[0]@);
            assert forall|x: int| 0 <= x < 4 implies #[trigger] bytes@[0 + x] == self.img()[0][0 + x] by {
                assert(bytes@.subrange(0 * PAGE_SIZE, (0 + 1) * PAGE_SIZE)[x] == bytes@[x]);
            }
            le::lemma_u32_same(bytes@, self.img()[0], 0, 0);
        }
        bytes
    }

    // ---- compaction -------------------------------------------------------

    /// Pages that a compaction would give back, as far as the counters tell: those on the
    /// freelist, and the leaves beyond those that the live entries would fill.
    pub open spec fn reclaimable(stats: BPlusTreeStats) -> int {
        let room = page::page_room(true);
        let packed = if stats.leaf_entry_bytes == 0 {
            1int
        } else {
            (stats.leaf_entry_bytes + room - 1) / room
        };
        stats.free_pages + (if stats.leaf_pages > packed {
            stats.leaf_pages - packed
        } else {
            0
        })
    }

    /// The bytes that the cells of leaves take with their slots.
    pub open spec fn entry_bytes(leaves: Seq<Seq<Seq<u8>>>) -> int
        decreases leaves.len(),
    {
        if leaves.len() == 0 {
            0
        } else {
            Self::entry_bytes(leaves.drop_last()) + page::used(leaves.last())
        }
    }

    /// By their bytes, the cells of the leaves fit on `k` pages, each of 4096 bytes with 24 of them
    /// taken by the header.
    pub open spec fn fit_on(leaves: Seq<Seq<Seq<u8>>>, k: int) -> bool {
        k >= 1 && Self::entry_bytes(leaves) <= 4072 * k
    }

    /// The counters.
    pub closed spec fn stats_view(&self) -> BPlusTreeStats {
        self.stats
    }

    /// The share of reclaimable pages: how many of how many.
    pub fn fragmentation_ratio(&self) -> (r: Ratio)
        requires
            self.wf(),
        ensures
            r.num == Self::reclaimable(self.stats_view()),
            r.den == self.stats_view().pages - 1,
            // All pages count but the first; those that could go are the free ones, and as many leaves
            // as the cells do not need.
            r.den == self.page_count() - 1,
            r.num >= self.tree().free.len(),
            forall|k: int| #[trigger]
                Self::fit_on(self.leaf_cells(), k) ==> r.num >= self.tree().free.len() + self.leaf_cells().len() - k,
            exists|k: int| #[trigger]
                Self::fit_on(self.leaf_cells(), k) && r.num == self.tree().free.len() + (if self.leaf_cells().len() > k {
                    self.leaf_cells().len() - k
                } else {
                    0
                }),
    {
        proof {
            self.lemma_counters();
            self.spare_pages_are_counted();
            let bytes = self.stats.leaf_entry_bytes as int;
            let packed = if bytes == 0 {
                1int
            } else {
                (bytes + 4071) / 4072
            };
            assert(Self::fit_on(self.leaf_cells(), packed));
            assert forall|k: int| #[trigger] Self::fit_on(self.leaf_cells(), k) implies packed <= k by {}
        }
        let room: u64 = (PAGE_SIZE - page::LEAF_HEADER_SIZE) as u64;
        let bytes: u64 = self.stats.leaf_entry_bytes;
        let packed: u64 = if bytes == 0 { 1 } else { (bytes + (room - 1)) / room };
        let spare: u64 = if self.stats.leaf_pages > packed { self.stats.leaf_pages - packed } else { 0 };
        Ratio { num: self.stats.free_pages + spare, den: self.stats.pages - 1 }
    }

    /// The counters are those of the leaves and of the freelist: free pages, leaves, pages in all, and
    /// the bytes that the cells take.
    pub proof fn spare_pages_are_counted(&self)
        requires
            self.wf(),
        ensures
            self.stats_view().free_pages == self.tree().free.len(),
            self.stats_view().leaf_pages == self.leaf_cells().len(),
            self.stats_view().pages == self.page_count(),
            self.stats_view().leaf_entry_bytes == Self::entry_bytes(self.leaf_cells()),
    {
        Self::lemma_entry_bytes(self.img(), self.model@.leaves);
    }

    proof fn lemma_entry_bytes(img: Seq<Seq<u8>>, ls: Seq<int>)
        ensures
            Self::entry_bytes(btree_model::blocks(img, ls)) == btree_model::leaf_bytes(img, ls),
        decreases ls.len(),
    {
        if ls.len() > 0 {
            Self::lemma_entry_bytes(img, ls.drop_last());
            assert(btree_model::blocks(img, ls).drop_last() =~= btree_model::blocks(img, ls.drop_last()));
        }
    }

    /// The counters are what they say: entries, pages on the freelist, leaves and the bytes
    /// that the entries take in them.
    proof fn lemma_counters(&self)
        requires
            self.wf(),
        ensures
            self.stats.pages >= 2,
            self.stats.pages <= MAX_PAGES,
            self.stats.free_pages < self.stats.pages,
            self.stats.leaf_pages < self.stats.pages,
            self.stats.leaf_entry_bytes <= 4072 * MAX_PAGES,
    {
        let m = self.model@;
        let img = self.img();
        let n = self.stats.pages as int;
        btree_model::lemma_leaf_count(img, m, n);
        reveal(btree_model::free_inv);
        assert forall|i: int| 0 <= i < m.free.len() implies 1 <= #[trigger] m.free[i] < n by {
            assert(btree_model::free_ok(img, m, i));
        }
        btree_model::lemma_distinct_bound(m.free, n);
        assert forall|i: int| 0 <= i < m.leaves.len() implies page::page_ok(true, img[#[trigger] m.leaves[i]]) by {
            self.lemma_leaf_facts(i);
        }
        btree_model::lemma_leaf_bytes_bound(img, m.leaves);
    }

    /// The cells of each leaf, from left to right.
    pub closed spec fn leaf_cells(&self) -> Seq<Seq<Seq<u8>>> {
        btree_model::blocks(self.img(), self.model@.leaves)
    }

    /// The entries were laid out anew: no leaf has room for the first entry of the next, so that
    /// there are no more leaves than before; no internal page but the last of its level has room
    /// for another child; no page is free or lost, and there are no more pages than are used, but
    /// as many as the tree is created with.
    pub open spec fn repacked(&self, to: &Self) -> bool {
        let floor = self.config_view().initial_capacity_pages;
        let used = to.stats_view().pages;
        &&& to@ == self@
        &&& to.stats_view().free_pages == 0
        &&& btree_model::all_tight(to.leaf_cells())
        &&& to.stats_view().leaf_pages <= self.stats_view().leaf_pages
        &&& to.inner_packed()
        &&& to.accounted()
        &&& forall|items: Seq<(Vec<u8>, Vec<u8>)>|
            maps::ascending(items) && maps::map_of(items) == self@ ==> to.page_count() <= #[trigger] most_pages(items)
        &&& to.img().len() == (if used < floor && floor <= MAX_PAGES {
            floor
        } else {
            used
        })
    }

    /// Rebuilds the tree from its entries, packed, on as few pages as that takes but not
    /// fewer than it was created with. Where there is no room to, nothing changes.
    pub fn compact(&mut self) -> (r: Result<(), StorageError>)
        requires
            old(self).wf(),
        ensures
            final(self).wf(),
            final(self)@ == old(self)@,
            final(self).config_view() == old(self).config_view(),
            forall|items: Seq<(Vec<u8>, Vec<u8>)>|
                maps::ascending(items) && maps::map_of(items) == old(self)@ && #[trigger] build_room(items) ==> r is Ok,
            match r {
                Ok(_) => old(self).repacked(final(self)),
                Err(e) => e == StorageError::StorageFull && *final(self) == *old(self),
            },
            // No page is free, no leaf has room for the first cell of the next, and there are no more pages than
            // are in use or were asked for at first.
            r is Ok ==> {
                &&& final(self).tree().free.len() == 0
                &&& forall|i: int|
                    0 < i < final(self).leaf_cells().len() ==> (#[trigger] final(self).leaf_cells()[i]).len() > 0
                        && page::used(final(self).leaf_cells()[i - 1]) + final(self).leaf_cells()[i][0].len() + 2 > 4072
                &&& final(self).img().len() == final(self).page_count() || final(self).img().len()
                    == old(self).config_view().initial_capacity_pages
                &&& final(self).img().len() >= final(self).page_count()
                &&& old(self).config_view().initial_capacity_pages <= MAX_PAGES ==> final(self).img().len()
                    >= old(self).config_view().initial_capacity_pages
            },
    {
        let items: Vec<(Vec<u8>, Vec<u8>)> = self.entries();
        proof {
            assert forall|i: int| 0 <= i < items@.len() implies (#[trigger] items@[i]).0@.len() <= btree_model::MAX_KEY
                && items@[i].1@.len() < page::OVFL_FLAG by {
                Self::lemma_map_of_at(items@, i);
                assert(self.model@.map.contains_key(items@[i].0@));
            }
            assert forall|other: Seq<(Vec<u8>, Vec<u8>)>|
                maps::ascending(other) && maps::map_of(other) == self@ && #[trigger] build_room(other) implies build_room(
                items@,
            ) by {
                maps::listing_is_unique(other, items@);
                lemma_value_pages_same(other, items@);
            }
        }
        let made: Result<BPlusTree, StorageError> = BPlusTree::create(
            BPlusTreeConfig { initial_capacity_pages: 2, compaction_ratio: Ratio { num: 1, den: 1 } },
        );
        match made {
            Ok(mut shadow) => {
                match shadow.bottom_up_build_raw(&items) {
                    Ok(_) => {
                        let floor: u64 = self.config.initial_capacity_pages;
                        shadow.config = self.config;
                        let used: u64 = shadow.stats.pages;
                        let want: u64 = if used < floor && floor <= MAX_PAGES { floor } else { used };
                        let ghost built = shadow;
                        shadow.resize_pages(want);
                        proof {
                            self.lemma_repacked(&built, &shadow, items@);
                            shadow.spare_pages_are_counted();
                            let bs = shadow.leaf_cells();
                            assert forall|i: int| 0 < i < bs.len() implies (#[trigger] bs[i]).len() > 0 && page::used(
                                bs[i - 1],
                            ) + bs[i][0].len() + 2 > 4072 by {
                                assert(btree_model::no_room(bs[i - 1], bs[i]));
                            }
                        }
                        *self = shadow;
                        Ok(())
                    },
                    Err(e) => Err(e),
                }
            },
            Err(e) => Err(e),
        }
    }

    /// What a tree that was built from the entries of this one is like.
    proof fn lemma_repacked(&self, built: &BPlusTree, to: &BPlusTree, items: Seq<(Vec<u8>, Vec<u8>)>)
        requires
            self.wf(),
            built.wf(),
            to.wf(),
            maps::ascending(items),
            maps::map_of(items) == self@,
            built@ == self@,
            btree_model::packed(built.img(), built.model@.leaves),
            built.inner_full(),
            btree_model::all_used(built.model@, built.stats.pages as int),
            built.stats.pages <= most_pages(items),
            to.model == built.model,
            to.stats == built.stats,
            forall|q: int| #[trigger] built.model@.kind.contains_key(q) ==> to.img()[q] == built.img()[q],
        ensures
            btree_model::all_tight(to.leaf_cells()),
            to.stats_view().leaf_pages <= self.stats_view().leaf_pages,
            to.inner_packed(),
            to.accounted(),
            forall|other: Seq<(Vec<u8>, Vec<u8>)>|
                maps::ascending(other) && maps::map_of(other) == self@ ==> to.page_count() <= #[trigger] most_pages(
                    other,
                ),
    {
        let ls = to.model@.leaves;
        assert forall|i: int| 0 <= i < ls.len() implies to.img()[#[trigger] ls[i]] == built.img()[ls[i]] by {
            built.lemma_leaf_facts(i);
            assert(built.model@.kind.contains_key(ls[i]));
        }
        assert forall|i: int, j: int| 0 <= i && j == i + 1 && j < ls.len() implies btree_model::tight(
            to.img(),
            #[trigger] ls[i],
            #[trigger] ls[j],
        ) by {
            assert(btree_model::tight(built.img(), ls[i], ls[j]));
        }
        to.lemma_tight();
        assert forall|q: int| #[trigger] btree_model::is_inner(to.model@, q) implies to.brim(q) by {
            assert(built.brim(q));
            assert(built.model@.kind.contains_key(q));
        }
        self.lemma_covered();
        to.lemma_covered();
        btree_model::lemma_fewest_leaves(
            self.img(),
            self.model@,
            self.stats.pages as int,
            to.img(),
            to.model@,
            to.stats.pages as int,
        );
        assert forall|other: Seq<(Vec<u8>, Vec<u8>)>|
            maps::ascending(other) && maps::map_of(other) == self@ implies to.page_count() <= #[trigger] most_pages(
            other,
        ) by {
            maps::listing_is_unique(other, items);
            lemma_value_pages_same(other, items);
        }
    }

    /// Every key lies in the range of a leaf.
    proof fn lemma_covered(&self)
        requires
            self.wf(),
        ensures
            forall|k: Seq<u8>| #[trigger]
                self.model@.map.contains_key(k) ==> exists|i: int|
                    0 <= i < self.model@.leaves.len() && btree_model::in_range(
                        k,
                        btree_model::node(self.model@, #[trigger] self.model@.leaves[i]).lo,
                        btree_model::node(self.model@, self.model@.leaves[i]).hi,
                    ),
    {
        assert forall|k: Seq<u8>| #[trigger] self.model@.map.contains_key(k) implies exists|i: int|
            0 <= i < self.model@.leaves.len() && btree_model::in_range(
                k,
                btree_model::node(self.model@, #[trigger] self.model@.leaves[i]).lo,
                btree_model::node(self.model@, self.model@.leaves[i]).hi,
            ) by {
            let i = self.lemma_leaf_of(k);
            let p = self.model@.leaves[i];
        }
    }

    proof fn lemma_map_of_at(items: Seq<(Vec<u8>, Vec<u8>)>, i: int)
        requires
            maps::ascending(items),
            0 <= i < items.len(),
        ensures
            maps::map_of(items).contains_key(items[i].0@),
            maps::map_of(items)[items[i].0@] == items[i].1@,
        decreases items.len(),
    {
        if i < items.len() - 1 {
            let rest = items.drop_last();
            assert forall|a: int, b: int| 0 <= a < b < rest.len() implies lex::lt(
                #[trigger] rest[a].0@,
                #[trigger] rest[b].0@,
            ) by {
                assert(lex::lt(items[a].0@, items[b].0@));
            }
            Self::lemma_map_of_at(rest, i);
            assert(lex::lt(items[i].0@, items[items.len() - 1].0@));
            lex::lt_irrefl(items[i].0@);
        }
    }

    /// Cuts or extends the pages to `n`, which holds all that are in use.
    fn resize_pages(&mut self, n: u64)
        requires
            old(self).wf(),
            old(self).stats.pages <= n <= MAX_PAGES,
        ensures
            final(self).wf(),
            final(self).model == old(self).model,
            final(self).config == old(self).config,
            final(self).stats == old(self).stats,
            final(self).img().len() == n,
            forall|q: int|
                #[trigger] old(self).model@.kind.contains_key(q) ==> final(self).img()[q] == old(self).img()[q],
    {
        let ghost img = self.img();
        let ghost m = self.model@;
        assert(self.pages@.len() == self.pages.len());
        if n < self.pages.len() as u64 {
            self.pages.truncate(n as usize);
        } else {
            self.extend_to(n);
        }
        proof {
            let img2 = self.img();
            assert forall|q: int| #[trigger] m.kind.contains_key(q) || q == 0 implies img2[q] == img[q] by {}
            assert forall|q: int| 0 <= q < img2.len() implies (#[trigger] img2[q]).len() == PAGE_SIZE by {
                if q < img.len() {
                    assert(img2[q] == img[q]);
                }
            }
            btree_model::lemma_free_frame(img, m, img2, m);
            btree_model::lemma_frame(
                img,
                m,
                None,
                self.stats.pages as int,
                img2,
                m,
                self.stats.pages as int,
                None,
            );
            assert(img2[0] == img[0]);
        }
    }

    /// There is room to lay the entries out anew.
    pub open spec fn rebuildable(&self) -> bool {
        exists|items: Seq<(Vec<u8>, Vec<u8>)>|
            maps::ascending(items) && maps::map_of(items) == self@ && #[trigger] build_room(items)
    }

    /// Whether the configured share of reclaimable pages is reached.
    pub open spec fn compaction_due(config: BPlusTreeConfig, stats: BPlusTreeStats) -> bool {
        ratio::share_reached(config.compaction_ratio, Self::reclaimable(stats), stats.pages - 1)
    }

    fn due(&self) -> (r: bool)
        requires
            self.wf(),
        ensures
            r == Self::compaction_due(self.config, self.stats),
    {
        let f: Ratio = self.fragmentation_ratio();
        self.config.compaction_ratio.reached(f.num, f.den)
    }

    /// What becomes of the tree once a write is through: it is compacted where the configured share
    /// of reclaimable pages is reached and there is room for that, and stays as it is otherwise.
    pub open spec fn settles(&self, to: &Self) -> bool {
        if Self::compaction_due(self.config_view(), self.stats_view()) {
            &&& self.repacked(to) || *to == *self
            &&& self.rebuildable() ==> self.repacked(to)
        } else {
            *to == *self
        }
    }

    /// An entry was put, and the tree compacted where that was due then.
    pub open spec fn wrote(&self, to: &Self, key: Seq<u8>, value: Seq<u8>) -> bool {
        exists|mid: Self|
            self.grown(&mid, key, value) && mid@ == self@.insert(key, value) && #[trigger] mid.settles(to)
    }

    /// An entry was deleted, its leaf staying, and the tree compacted where that was due then.
    pub open spec fn dropped(&self, to: &Self, key: Seq<u8>) -> bool {
        exists|mid: Self| self.shrunk(&mid, key) && mid@ == self@.remove(key) && #[trigger] mid.settles(to)
    }

    /// What a deletion does to the pages: none is taken and none lost, and one leaf loses the cell of
    /// the entry.
    pub open spec fn shrunk(&self, to: &Self, key: Seq<u8>) -> bool {
        &&& to.wf()
        &&& to.config_view() == self.config_view()
        &&& to.page_count() == self.page_count()
        &&& to.height() == self.height()
        &&& to.stats_view().leaf_pages == self.stats_view().leaf_pages
        &&& self.accounted() ==> to.accounted()
        &&& exists|i: int, pos: int| #[trigger]
            btree_model::entry_cut(self.leaf_cells(), to.leaf_cells(), i, pos, key)
    }

    /// The trees that the puts of entries go through, one after the other.
    pub open spec fn put_steps(trees: Seq<Self>, items: Seq<(Vec<u8>, Vec<u8>)>) -> bool {
        &&& trees.len() == items.len() + 1
        &&& forall|i: int, j: int|
            0 <= i && j == i + 1 && j < trees.len() ==> #[trigger] Self::put_step(trees, items, i, j)
    }

    /// One of the puts.
    pub open spec fn put_step(trees: Seq<Self>, items: Seq<(Vec<u8>, Vec<u8>)>, i: int, j: int) -> bool {
        &&& trees[j].wf()
        &&& trees[j].config_view() == trees[i].config_view()
        &&& trees[j]@ == trees[i]@.insert(items[i].0@, items[i].1@)
        &&& trees[i].wrote(&trees[j], items[i].0@, items[i].1@)
    }

    /// The entries were put one after the other.
    pub open spec fn put_through(&self, to: &Self, items: Seq<(Vec<u8>, Vec<u8>)>) -> bool {
        exists|trees: Seq<Self>| #[trigger]
            Self::put_steps(trees, items) && trees[0] == *self && trees.last() == *to
    }

    /// The keys were deleted one after the other.
    pub open spec fn deleted_through(&self, to: &Self, keys: Seq<Vec<u8>>) -> bool {
        exists|trees: Seq<Self>| #[trigger]
            Self::delete_steps(trees, keys) && trees[0] == *self && trees.last() == *to
    }

    /// The trees that the deletions of keys go through, one after the other.
    pub open spec fn delete_steps(trees: Seq<Self>, keys: Seq<Vec<u8>>) -> bool {
        &&& trees.len() == keys.len() + 1
        &&& forall|i: int, j: int|
            0 <= i && j == i + 1 && j < trees.len() ==> #[trigger] Self::delete_step(trees, keys, i, j)
    }

    /// One of the deletions; nothing happens where the key is not there.
    pub open spec fn delete_step(trees: Seq<Self>, keys: Seq<Vec<u8>>, i: int, j: int) -> bool {
        if trees[i]@.contains_key(keys[i]@) {
            trees[i].dropped(&trees[j], keys[i]@)
        } else {
            trees[j] == trees[i]
        }
    }

    /// The tree was built from entries: its leaves and internal pages are packed, and no page is
    /// free or lost.
    pub open spec fn laid_out(&self, items: Seq<(Vec<u8>, Vec<u8>)>) -> bool {
        &&& self.stats_view().free_pages == 0
        &&& btree_model::all_tight(self.leaf_cells())
        &&& self.inner_packed()
        &&& self.accounted()
        &&& self.page_count() <= most_pages(items)
    }

    /// The levels of a tree are fewer than its pages.
    pub proof fn height_is_below_the_pages(&self)
        requires
            self.wf(),
        ensures
            self.height() + 2 <= self.page_count(),
    {
        self.lemma_root_is_tree();
        let m = self.model@;
        let path = self.lemma_way_down(m.tops[0]);
        let n = self.stats.pages as int;
        assert forall|i: int, j: int| 0 <= i < j < path.len() implies #[trigger] path[i] != #[trigger] path[j] by {
            assert(btree_model::node(m, path[i]).level != btree_model::node(m, path[j]).level);
        }
        assert forall|i: int| 0 <= i < path.len() implies 1 <= #[trigger] path[i] < n by {
            assert(btree_model::is_tree(m, path[i]));
        }
        btree_model::lemma_distinct_bound(path, n);
    }

    /// A page of each level from that of `p` down.
    proof fn lemma_way_down(&self, p: int) -> (path: Seq<int>)
        requires
            self.wf(),
            btree_model::is_tree(self.model@, p),
        ensures
            path.len() == btree_model::node(self.model@, p).level + 1,
            forall|i: int|
                0 <= i < path.len() ==> btree_model::is_tree(self.model@, #[trigger] path[i]) && btree_model::node(
                    self.model@,
                    path[i],
                ).level == i,
        decreases btree_model::node(self.model@, p).level,
    {
        let m = self.model@;
        if btree_model::node(m, p).level == 0 {
            seq![p]
        } else {
            assert(btree_model::is_inner(m, p));
            assert(btree_model::inner_inv(self.img(), m, None, p));
            reveal(btree_model::inner_inv);
            let c = btree_model::kid(self.img()[p], 0);
            assert(btree_model::kid_ok(self.img(), m, None, p, 0));
            let below = self.lemma_way_down(c);
            below.push(p)
        }
    }

    /// Compacts where that is due.
    fn maybe_compact(&mut self)
        requires
            old(self).wf(),
        ensures
            final(self).wf(),
            final(self)@ == old(self)@,
            final(self).config == old(self).config,
            old(self).settles(final(self)),
    {
        if self.due() {
            let _ = self.compact();
        }
    }

    // ---- writing ----------------------------------------------------------

    /// Whether there is room for an entry with a value of `n` bytes, after a descent of the
    /// given depth.
    fn room_for(&self, hint: &DescentHint, n: usize, Ghost(key): Ghost<Seq<u8>>) -> (r: bool)
        requires
            self.wf(),
            hint.ok(self, key),
        ensures
            r == self.has_room(n as int),
    {
        let ext: u128 = (n / PAGE_SIZE + (if n % PAGE_SIZE == 0 { 0usize } else { 1usize })) as u128;
        assert(ext == btree_model::extent_pages(n as int));
        let depth: u128 = hint.path.depth();
        self.stats.pages as u128 + ext + 2 * depth + 8 <= MAX_PAGES as u128 && self.stats.entries < usize::MAX
    }

    /// Inserts or overwrites an entry.
    pub fn put(&mut self, key: &[u8], value: &[u8]) -> (r: Result<(), StorageError>)
        requires
            old(self).wf(),
            key@.len() <= btree_model::MAX_KEY,
            value@.len() < page::OVFL_FLAG,
        ensures
            final(self).wf(),
            final(self).config_view() == old(self).config_view(),
            match r {
                Ok(_) => old(self).has_room(value@.len() as int) && final(self)@ == old(self)@.insert(key@, value@)
                    && old(self).wrote(final(self), key@, value@),
                Err(e) => !old(self).has_room(value@.len() as int) && *final(self) == *old(self) && e
                    == StorageError::StorageFull,
            },
            // Where there is room to lay the tree out anew, it was, or what that would give back is less than
            // the share.
            r is Ok && final(self).config_view().compaction_ratio.num < final(self).config_view().compaction_ratio.den
                && final(self).rebuildable() ==> {
                ||| {
                    &&& final(self).tree().free.len() == 0
                    &&& forall|i: int|
                        0 < i < final(self).leaf_cells().len() ==> (#[trigger] final(self).leaf_cells()[i]).len() > 0
                            && page::used(final(self).leaf_cells()[i - 1]) + final(self).leaf_cells()[i][0].len() + 2
                            > 4072
                }
                ||| {
                    &&& final(self).tree().free.len() * final(self).config_view().compaction_ratio.den
                        < final(self).config_view().compaction_ratio.num * (final(self).page_count() - 1)
                    &&& forall|k: int| #[trigger]
                        Self::fit_on(final(self).leaf_cells(), k) ==> (final(self).tree().free.len()
                            + final(self).leaf_cells().len() - k) * final(self).config_view().compaction_ratio.den
                            < final(self).config_view().compaction_ratio.num * (final(self).page_count() - 1)
                }
            },
            // It was only where the share was reached.
            r is Ok ==> exists|mid: Self| #[trigger]
                old(self).grown(&mid, key@, value@) && mid@ == old(self)@.insert(key@, value@) && (*final(self) == mid || {
                    let t = mid.config_view().compaction_ratio;
                    t.num < t.den && (mid.tree().free.len() * t.den >= t.num * (mid.page_count() - 1) || exists|k: int|
                        #[trigger] Self::fit_on(mid.leaf_cells(), k) && (mid.tree().free.len() + mid.leaf_cells().len()
                            - k) * t.den >= t.num * (mid.page_count() - 1))
                }),
    {
        let hint: DescentHint = self.descend_to_leaf(key);
        assert(value@.len() == value.len());
        if !self.room_for(&hint, value.len(), Ghost(key@)) {
            return Err(StorageError::StorageFull);
        }
        self.insert_bytes(key, value, hint);
        let ghost mid = *self;
        self.maybe_compact();
        proof {
            assert(mid.settles(self));
            settling::compaction_follows_the_share(mid, *self);
        }
        Ok(())
    }

    /// Inserts an entry where the key is not there. Gives whether it did.
    pub fn put_if_absent(&mut self, key: &[u8], value: &[u8]) -> (r: Result<bool, StorageError>)
        requires
            old(self).wf(),
            key@.len() <= btree_model::MAX_KEY,
            value@.len() < page::OVFL_FLAG,
        ensures
            final(self).wf(),
            final(self).config_view() == old(self).config_view(),
            match r {
                Ok(true) => !old(self)@.contains_key(key@) && old(self).has_room(value@.len() as int) && final(self)@
                    == old(self)@.insert(key@, value@) && old(self).wrote(final(self), key@, value@),
                Ok(false) => old(self)@.contains_key(key@) && *final(self) == *old(self),
                Err(e) => !old(self)@.contains_key(key@) && !old(self).has_room(value@.len() as int) && *final(self)
                    == *old(self) && e == StorageError::StorageFull,
            },
            // Where there is room to lay the tree out anew, it was, or what that would give back is less than
            // the share.
            r == Ok::<bool, StorageError>(true)
                && final(self).config_view().compaction_ratio.num < final(self).config_view().compaction_ratio.den
                && final(self).rebuildable() ==> {
                ||| {
                    &&& final(self).tree().free.len() == 0
                    &&& forall|i: int|
                        0 < i < final(self).leaf_cells().len() ==> (#[trigger] final(self).leaf_cells()[i]).len() > 0
                            && page::used(final(self).leaf_cells()[i - 1]) + final(self).leaf_cells()[i][0].len() + 2
                            > 4072
                }
                ||| {
                    &&& final(self).tree().free.len() * final(self).config_view().compaction_ratio.den
                        < final(self).config_view().compaction_ratio.num * (final(self).page_count() - 1)
                    &&& forall|k: int| #[trigger]
                        Self::fit_on(final(self).leaf_cells(), k) ==> (final(self).tree().free.len()
                            + final(self).leaf_cells().len() - k) * final(self).config_view().compaction_ratio.den
                            < final(self).config_view().compaction_ratio.num * (final(self).page_count() - 1)
                }
            },
    {
        let hint: DescentHint = self.descend_to_leaf(key);
        proof {
            self.lemma_hint(&hint, key@);
        }
        if hint.found {
            return Ok(false);
        }
        assert(value@.len() == value.len());
        if !self.room_for(&hint, value.len(), Ghost(key@)) {
            return Err(StorageError::StorageFull);
        }
        self.insert_bytes(key, value, hint);
        let ghost mid = *self;
        self.maybe_compact();
        proof {
            assert(mid.settles(self));
            settling::compaction_follows_the_share(mid, *self);
        }
        Ok(true)
    }

    /// The cell that a descent found.
    proof fn lemma_hint_cell(&self, hint: &DescentHint, key: Seq<u8>)
        requires
            self.wf(),
            hint.ok(self, key),
            hint.found,
        ensures
            hint.slot < page::cells(true, self.img()[hint.leaf_page as int]).len(),
            page::key_of(true, page::cells(true, self.img()[hint.leaf_page as int])[hint.slot as int]) == key,
    {
        self.lemma_hint(hint, key);
        assert(btree_model::leaf_inv(self.img(), self.model@, hint.leaf_page as int));
        reveal(btree_model::leaf_inv);
        page::lemma_page_cells(true, self.img()[hint.leaf_page as int]);
    }

    proof fn lemma_hint(&self, hint: &DescentHint, key: Seq<u8>)
        requires
            self.wf(),
            hint.ok(self, key),
        ensures
            hint.found == self@.contains_key(key),
            hint.found ==> hint.slot < page::page_count(self.img()[hint.leaf_page as int]) && self@[key]
                == btree_model::value_of(
                self.img(),
                page::cells(true, self.img()[hint.leaf_page as int])[hint.slot as int],
            ),
    {
        assert(btree_model::leaf_inv(self.img(), self.model@, hint.leaf_page as int));
        btree_model::lemma_lookup(
            self.img(),
            self.model@,
            hint.leaf_page as int,
            key,
            hint.slot as int,
            hint.found,
        );
    }

    /// The value that a descent found.
    fn value_at_hint(&self, hint: &DescentHint, Ghost(key): Ghost<Seq<u8>>) -> (r: Option<Vec<u8>>)
        requires
            self.wf(),
            hint.ok(self, key),
        ensures
            maps::holds(self@, key, r),
    {
        proof {
            self.lemma_hint(hint, key);
        }
        if hint.found {
            Some(self.value_bytes_at(hint.leaf_page, hint.slot))
        } else {
            None
        }
    }

    /// Inserts or overwrites an entry and gives the value before.
    pub fn replace(&mut self, key: &[u8], value: &[u8]) -> (r: Result<Option<Vec<u8>>, StorageError>)
        requires
            old(self).wf(),
            key@.len() <= btree_model::MAX_KEY,
            value@.len() < page::OVFL_FLAG,
        ensures
            final(self).wf(),
            final(self).config_view() == old(self).config_view(),
            match r {
                Ok(prev) => old(self).has_room(value@.len() as int) && maps::holds(old(self)@, key@, prev)
                    && final(self)@ == old(self)@.insert(key@, value@) && old(self).wrote(final(self), key@, value@),
                Err(e) => !old(self).has_room(value@.len() as int) && *final(self) == *old(self) && e
                    == StorageError::StorageFull,
            },
            // Where there is room to lay the tree out anew, it was, or what that would give back is less than
            // the share.
            r is Ok && final(self).config_view().compaction_ratio.num < final(self).config_view().compaction_ratio.den
                && final(self).rebuildable() ==> {
                ||| {
                    &&& final(self).tree().free.len() == 0
                    &&& forall|i: int|
                        0 < i < final(self).leaf_cells().len() ==> (#[trigger] final(self).leaf_cells()[i]).len() > 0
                            && page::used(final(self).leaf_cells()[i - 1]) + final(self).leaf_cells()[i][0].len() + 2
                            > 4072
                }
                ||| {
                    &&& final(self).tree().free.len() * final(self).config_view().compaction_ratio.den
                        < final(self).config_view().compaction_ratio.num * (final(self).page_count() - 1)
                    &&& forall|k: int| #[trigger]
                        Self::fit_on(final(self).leaf_cells(), k) ==> (final(self).tree().free.len()
                            + final(self).leaf_cells().len() - k) * final(self).config_view().compaction_ratio.den
                            < final(self).config_view().compaction_ratio.num * (final(self).page_count() - 1)
                }
            },
    {
        let hint: DescentHint = self.descend_to_leaf(key);
        assert(value@.len() == value.len());
        if !self.room_for(&hint, value.len(), Ghost(key@)) {
            return Err(StorageError::StorageFull);
        }
        let prev: Option<Vec<u8>> = self.value_at_hint(&hint, Ghost(key@));
        self.insert_bytes(key, value, hint);
        let ghost mid = *self;
        self.maybe_compact();
        proof {
            assert(mid.settles(self));
            settling::compaction_follows_the_share(mid, *self);
        }
        Ok(prev)
    }

    proof fn lemma_shrunk(&self, to: &BPlusTree, p: int, slot: int, key: Seq<u8>)
        requires
            self.wf(),
            to.wf(),
            btree_model::is_leaf(self.model@, p),
            0 <= slot < page::cells(true, self.img()[p]).len(),
            page::key_of(true, page::cells(true, self.img()[p])[slot]) == key,
            page::cells(true, to.img()[p]) == page::cells(true, self.img()[p]).remove(slot),
            forall|q: int| #[trigger]
                btree_model::is_tree(self.model@, q) && q != p ==> to.img()[q] == self.img()[q],
            to.config == self.config,
            to.stats.pages == self.stats.pages,
            to.model@.tops == self.model@.tops,
            to.model@.leaves == self.model@.leaves,
            forall|q: int| #[trigger]
                btree_model::is_tree(self.model@, q) ==> btree_model::is_tree(to.model@, q) && to.model@.kind[q]
                    == self.model@.kind[q],
            to.keeps_pages(self),
        ensures
            self.shrunk(to, key),
    {
        let x = btree_model::leaf_index(self.model@, p);
        btree_model::lemma_leaf_index(self.img(), self.model@, p);
        self.lemma_cells_at(to, x);
        assert(self.leaf_cells()[x] == page::cells(true, self.img()[p]));
        assert(btree_model::entry_cut(self.leaf_cells(), to.leaf_cells(), x, slot, key));
        self.lemma_root_is_tree();
        assert(btree_model::is_tree(self.model@, self.model@.tops[0]));
    }

    /// Deletes an entry. Gives whether it was there.
    pub fn delete(&mut self, key: &[u8]) -> (r: bool)
        requires
            old(self).wf(),
        ensures
            final(self).wf(),
            final(self).config_view() == old(self).config_view(),
            r == old(self)@.contains_key(key@),
            final(self)@ == old(self)@.remove(key@),
            !r ==> *final(self) == *old(self),
            r ==> old(self).dropped(final(self), key@),
            // Where there is room to lay the tree out anew, it was, or what that would give back is less than
            // the share.
            r && final(self).config_view().compaction_ratio.num < final(self).config_view().compaction_ratio.den
                && final(self).rebuildable() ==> {
                ||| {
                    &&& final(self).tree().free.len() == 0
                    &&& forall|i: int|
                        0 < i < final(self).leaf_cells().len() ==> (#[trigger] final(self).leaf_cells()[i]).len() > 0
                            && page::used(final(self).leaf_cells()[i - 1]) + final(self).leaf_cells()[i][0].len() + 2
                            > 4072
                }
                ||| {
                    &&& final(self).tree().free.len() * final(self).config_view().compaction_ratio.den
                        < final(self).config_view().compaction_ratio.num * (final(self).page_count() - 1)
                    &&& forall|k: int| #[trigger]
                        Self::fit_on(final(self).leaf_cells(), k) ==> (final(self).tree().free.len()
                            + final(self).leaf_cells().len() - k) * final(self).config_view().compaction_ratio.den
                            < final(self).config_view().compaction_ratio.num * (final(self).page_count() - 1)
                }
            },
            // It was only where the share was reached. The pages of a large value are free first.
            r ==> exists|mid: Self| #[trigger]
                old(self).shrunk(&mid, key@) && mid@ == old(self)@.remove(key@) && mid.tree().free.len() == old(
                    self).tree().free.len() + (if key@.len() + old(self)@[key@].len() + 6 > 4064 {
                    (old(self)@[key@].len() as int + 4095) / 4096
                } else {
                    0
                }) && (*final(self) == mid || {
                    let t = mid.config_view().compaction_ratio;
                    t.num < t.den && (mid.tree().free.len() * t.den >= t.num * (mid.page_count() - 1) || exists|k: int|
                        #[trigger] Self::fit_on(mid.leaf_cells(), k) && (mid.tree().free.len() + mid.leaf_cells().len()
                            - k) * t.den >= t.num * (mid.page_count() - 1))
                }),
    {
        let hint: DescentHint = self.descend_to_leaf(key);
        proof {
            self.lemma_hint(&hint, key@);
        }
        if hint.found {
            proof {
                self.lemma_hint_cell(&hint, key@);
            }
            self.delete_at(hint.leaf_page, hint.slot);
            let ghost mid = *self;
            self.maybe_compact();
            proof {
                old(self).lemma_shrunk(&mid, hint.leaf_page as int, hint.slot as int, key@);
                assert(mid.settles(self));
                settling::compaction_follows_the_share(mid, *self);
            }
            true
        } else {
            assert(self@.remove(key@) =~= self@);
            false
        }
    }

    /// Replaces the value of `key` by what `f` makes of it; `None` stands for no entry on
    /// either side.
    pub fn update<F: FnOnce(Option<Vec<u8>>) -> Option<Vec<u8>>>(&mut self, key: &[u8], f: F) -> (r: Result<
        (),
        StorageError,
    >)
        requires
            old(self).wf(),
            key@.len() <= btree_model::MAX_KEY,
            forall|cur: Option<Vec<u8>>| #[trigger]
                maps::holds(old(self)@, key@, cur) ==> call_requires(f, (cur,)),
            forall|cur: Option<Vec<u8>>, out: Vec<u8>|
                maps::holds(old(self)@, key@, cur) && #[trigger] call_ensures(f, (cur,), Some(out)) ==> out@.len()
                    < page::OVFL_FLAG,
        ensures
            final(self).wf(),
            final(self).config_view() == old(self).config_view(),
            exists|cur: Option<Vec<u8>>, out: Option<Vec<u8>>| #[trigger]
                call_ensures(f, (cur,), out) && maps::holds(old(self)@, key@, cur) && match out {
                    Some(v) => match r {
                        Ok(_) => old(self).has_room(v@.len() as int) && final(self)@ == old(self)@.insert(key@, v@)
                            && old(self).wrote(final(self), key@, v@),
                        Err(e) => !old(self).has_room(v@.len() as int) && *final(self) == *old(self) && e
                            == StorageError::StorageFull,
                    },
                    None => r is Ok && final(self)@ == old(self)@.remove(key@) && if old(self)@.contains_key(key@) {
                        old(self).dropped(final(self), key@)
                    } else {
                        *final(self) == *old(self)
                    },
                },
            // Where there is room to lay the tree out anew, it was, or what that would give back is less than
            // the share.
            r is Ok && *final(self) != *old(self)
                && final(self).config_view().compaction_ratio.num < final(self).config_view().compaction_ratio.den
                && final(self).rebuildable() ==> {
                ||| {
                    &&& final(self).tree().free.len() == 0
                    &&& forall|i: int|
                        0 < i < final(self).leaf_cells().len() ==> (#[trigger] final(self).leaf_cells()[i]).len() > 0
                            && page::used(final(self).leaf_cells()[i - 1]) + final(self).leaf_cells()[i][0].len() + 2
                            > 4072
                }
                ||| {
                    &&& final(self).tree().free.len() * final(self).config_view().compaction_ratio.den
                        < final(self).config_view().compaction_ratio.num * (final(self).page_count() - 1)
                    &&& forall|k: int| #[trigger]
                        Self::fit_on(final(self).leaf_cells(), k) ==> (final(self).tree().free.len()
                            + final(self).leaf_cells().len() - k) * final(self).config_view().compaction_ratio.den
                            < final(self).config_view().compaction_ratio.num * (final(self).page_count() - 1)
                }
            },
    {
        let hint: DescentHint = self.descend_to_leaf(key);
        proof {
            self.lemma_hint(&hint, key@);
        }
        let found: bool = hint.found;
        let cur: Option<Vec<u8>> = self.value_at_hint(&hint, Ghost(key@));
        let ghost seen = cur;
        let out: Option<Vec<u8>> = f(cur);
        assert(call_ensures(f, (seen,), out));
        match out {
            Some(v) => {
                assert(v@.len() == v.len());
                if !self.room_for(&hint, v.len(), Ghost(key@)) {
                    return Err(StorageError::StorageFull);
                }
                self.insert_bytes(key, v.as_slice(), hint);
                let ghost mid = *self;
                self.maybe_compact();
                proof {
                    assert(mid.settles(self));
                    settling::compaction_follows_the_share(mid, *self);
                }
            },
            None => {
                if found {
                    proof {
                        self.lemma_hint_cell(&hint, key@);
                    }
                    self.delete_at(hint.leaf_page, hint.slot);
                    let ghost mid = *self;
                    self.maybe_compact();
                    proof {
                        old(self).lemma_shrunk(&mid, hint.leaf_page as int, hint.slot as int, key@);
                        assert(mid.settles(self));
                        settling::compaction_follows_the_share(mid, *self);
                    }
                } else {
                    assert(self@.remove(key@) =~= self@);
                }
            },
        }
        Ok(())
    }

    /// Puts entries one after the other, up to the first that finds no room.
    pub fn bulk_put(&mut self, items: &Vec<(Vec<u8>, Vec<u8>)>) -> (r: Result<(), StorageError>)
        requires
            old(self).wf(),
            Self::storable(items@),
        ensures
            final(self).wf(),
            final(self).config_view() == old(self).config_view(),
            match r {
                Ok(_) => final(self)@ == maps::put_all(old(self)@, items@) && old(self).put_through(final(self), items@),
                Err(e) => e == StorageError::StorageFull && exists|n: int|
                    0 <= n < items@.len() && final(self)@ == maps::put_all(old(self)@, #[trigger] items@.take(n))
                        && !final(self).has_room(items@[n].1@.len() as int) && old(self).put_through(
                        final(self),
                        items@.take(n),
                    ),
            },
    {
        let mut i: usize = 0;
        let ghost mut trees: Seq<BPlusTree> = seq![*self];
        assert(items@.take(0) =~= Seq::<(Vec<u8>, Vec<u8>)>::empty());
        while i < items.len()
            invariant
                0 <= i <= items@.len(),
                self.wf(),
                self.config == old(self).config,
                Self::storable(items@),
                self@ == maps::put_all(old(self)@, items@.take(i as int)),
                Self::put_steps(trees, items@.take(i as int)),
                trees[0] == *old(self),
                trees.last() == *self,
            decreases items@.len() - i,
        {
            let ghost before = *self;
            assert(items@[i as int].0@.len() <= btree_model::MAX_KEY && items@[i as int].1@.len() < page::OVFL_FLAG);
            match self.put(items[i].0.as_slice(), items[i].1.as_slice()) {
                Ok(_) => {},
                Err(e) => {
                    assert(self@ == maps::put_all(old(self)@, items@.take(i as int)));
                    assert(Self::put_steps(trees, items@.take(i as int)) && trees[0] == *old(self) && trees.last()
                        == *self);
                    return Err(e);
                },
            }
            assert(items@.take(i + 1).drop_last() =~= items@.take(i as int));
            proof {
                let longer = trees.push(*self);
                assert forall|a: int, b: int| 0 <= a && b == a + 1 && b < longer.len() implies #[trigger] Self::put_step(
                    longer,
                    items@.take(i + 1),
                    a,
                    b,
                ) by {
                    assert(items@.take(i + 1)[a] == items@[a]);
                    if b < trees.len() {
                        assert(Self::put_step(trees, items@.take(i as int), a, b));
                        assert(items@.take(i as int)[a] == items@[a]);
                    } else {
                        assert(trees[a] == before);
                    }
                }
                trees = longer;
            }
            i = i + 1;
        }
        assert(items@.take(i as int) =~= items@);
        assert(Self::put_steps(trees, items@) && trees[0] == *old(self) && trees.last() == *self);
        Ok(())
    }

    proof fn lemma_put_all_empty(items: Seq<(Vec<u8>, Vec<u8>)>)
        ensures
            maps::put_all(Map::empty(), items) == maps::map_of(items),
        decreases items.len(),
    {
        if items.len() > 0 {
            Self::lemma_put_all_empty(items.drop_last());
        }
    }

    /// Puts entries, the last of equal keys staying: strictly rising ones into a tree without
    /// entries by building it from them, others one after the other.
    pub fn bulk_put_sorted(&mut self, items: &Vec<(Vec<u8>, Vec<u8>)>) -> (r: Result<(), StorageError>)
        requires
            old(self).wf(),
            Self::storable(items@),
        ensures
            final(self).wf(),
            final(self).config_view() == old(self).config_view(),
            match r {
                Ok(_) => final(self)@ == maps::put_all(old(self)@, items@) && if old(self)@.len() == 0
                    && maps::ascending(items@) {
                    final(self).laid_out(items@)
                } else {
                    old(self).put_through(final(self), items@)
                },
                Err(e) => e == StorageError::StorageFull && if old(self)@.len() == 0 && maps::ascending(items@) {
                    !build_room(items@) && final(self)@ == old(self)@
                } else {
                    exists|n: int|
                        0 <= n < items@.len() && final(self)@ == maps::put_all(old(self)@, #[trigger] items@.take(n))
                            && !final(self).has_room(items@[n].1@.len() as int) && old(self).put_through(
                            final(self),
                            items@.take(n),
                        )
                },
            },
    {
        if self.stats.entries != 0 || !maps::is_ascending(items) {
            return self.bulk_put(items);
        }
        proof {
            assert(self@ =~= Map::<Seq<u8>, Seq<u8>>::empty()) by {
                if exists|k: Seq<u8>| #[trigger] self@.contains_key(k) {
                    let k = choose|k: Seq<u8>| #[trigger] self@.contains_key(k);
                    assert(self@.dom().contains(k));
                    assert(self@.dom().remove(k).len() < self@.dom().len());
                }
            }
            Self::lemma_put_all_empty(items@);
            assert(items@.take(0) =~= Seq::<(Vec<u8>, Vec<u8>)>::empty());
        }
        let r: Result<(), StorageError> = self.bottom_up_build_raw(items);
        proof {
            if r is Ok {
                self.lemma_tight();
            }
        }
        r
    }

    proof fn lemma_tight(&self)
        requires
            btree_model::packed(self.img(), self.model@.leaves),
        ensures
            btree_model::all_tight(self.leaf_cells()),
    {
        let ls = self.model@.leaves;
        assert forall|i: int, j: int|
            0 <= i && j == i + 1 && j < self.leaf_cells().len() implies btree_model::no_room(
            #[trigger] self.leaf_cells()[i],
            #[trigger] self.leaf_cells()[j],
        ) by {
            assert(btree_model::tight(self.img(), ls[i], ls[j]));
        }
    }

    /// Deletes the given keys. Gives the number of entries deleted.
    pub fn bulk_delete(&mut self, keys: &Vec<Vec<u8>>) -> (removed: usize)
        requires
            old(self).wf(),
        ensures
            final(self).wf(),
            final(self).config_view() == old(self).config_view(),
            forall|k: Seq<u8>|
                #![trigger final(self)@.contains_key(k)]
                final(self)@.contains_key(k) == (old(self)@.contains_key(k) && !maps::among(
                    keys@,
                    keys@.len() as int,
                    k,
                )) && (final(self)@.contains_key(k) ==> final(self)@[k] == old(self)@[k]),
            removed == old(self)@.len() - final(self)@.len(),
            old(self).deleted_through(final(self), keys@),
    {
        let ghost start = *self;
        let ghost mut trees: Seq<BPlusTree> = seq![*self];
        assert(keys@.take(0) =~= Seq::<Vec<u8>>::empty());
        let mut removed: usize = 0;
        let mut i: usize = 0;
        while i < keys.len()
            invariant
                0 <= i <= keys@.len(),
                self.wf(),
                start.wf(),
                self.config == start.config,
                self.removed_so_far(&start, keys@, i as int),
                removed + self@.len() == start@.len(),
                self@.len() <= start@.len(),
                Self::delete_steps(trees, keys@.take(i as int)),
                trees[0] == start,
                trees.last() == *self,
            decreases keys@.len() - i,
        {
            let ghost before = *self;
            let k: &Vec<u8> = &keys[i];
            let hit: bool = self.delete(k.as_slice());
            proof {
                assert(self@.dom() =~= before@.dom().remove(k@));
                assert forall|o: Seq<u8>|
                    #![trigger self.model@.map.contains_key(o)]
                    self.model@.map.contains_key(o) == (start.model@.map.contains_key(o) && !maps::among(
                        keys@,
                        i + 1,
                        o,
                    )) && (self.model@.map.contains_key(o) ==> self.model@.map[o] == start.model@.map[o]) by {
                    Self::lemma_among_step(keys@, i as int, o);
                    assert(before.model@.map.contains_key(o) == (start.model@.map.contains_key(o) && !maps::among(
                        keys@,
                        i as int,
                        o,
                    )));
                }
            }
            if hit {
                assert(self@.len() == before@.len() - 1);
                removed = removed + 1;
            }
            proof {
                let longer = trees.push(*self);
                assert forall|a: int, b: int|
                    0 <= a && b == a + 1 && b < longer.len() implies #[trigger] Self::delete_step(
                    longer,
                    keys@.take(i + 1),
                    a,
                    b,
                ) by {
                    assert(keys@.take(i + 1)[a] == keys@[a]);
                    if b < trees.len() {
                        assert(Self::delete_step(trees, keys@.take(i as int), a, b));
                        assert(keys@.take(i as int)[a] == keys@[a]);
                    } else {
                        assert(trees[a] == before);
                    }
                }
                trees = longer;
            }
            i = i + 1;
        }
        assert(keys@.take(i as int) =~= keys@);
        assert(Self::delete_steps(trees, keys@) && trees[0] == *old(self) && trees.last() == *self);
        removed
    }

    /// Removes all entries.
    pub fn clear(&mut self)
        requires
            old(self).wf(),
        ensures
            final(self).wf(),
            final(self)@ == Map::<Seq<u8>, Seq<u8>>::empty(),
            final(self).config_view() == old(self).config_view(),
            final(self).page_count() == 2,
            final(self).height() == 0,
            final(self).accounted(),
    {
        proof {
            self.lemma_root_is_tree();
        }
        self.do_clear();
    }

    /// A tree has finitely many entries.
    pub proof fn lemma_finite(&self)
        requires
            self.wf(),
        ensures
            self@.dom().finite(),
    {
    }

    /// The number of entries.
    pub fn size(&self) -> (n: usize)
        requires
            self.wf(),
        ensures
            n == self@.len(),
    {
        self.stats.entries
    }

    /// The number of pages in use or on the freelist.
    pub fn pages(&self) -> (n: u64)
        requires
            self.wf(),
        ensures
            n == self.page_count(),
    {
        self.stats.pages
    }

    /// The counters.
    pub fn stats(&self) -> (s: BPlusTreeStats)
        requires
            self.wf(),
        ensures
            s == self.stats_view(),
            s.entries == self@.len(),
            s.pages == self.page_count(),
            s.free_pages == self.tree().free.len(),
            s.leaf_pages == self.leaf_cells().len(),
            s.leaf_entry_bytes == Self::entry_bytes(self.leaf_cells()),
    {
        proof {
            self.spare_pages_are_counted();
        }
        self.stats
    }

    /// The configuration.
    pub fn config(&self) -> (c: BPlusTreeConfig)
        ensures
            c == self.config_view(),
    {
        self.config
    }
}

/// The settings of a tree that names none.
pub open spec fn usual() -> BPlusTreeConfig {
    BPlusTreeConfig {
        initial_capacity_pages: DEFAULT_INITIAL_CAPACITY_PAGES,
        compaction_ratio: Ratio { num: 1, den: 2 },
    }
}

impl Default for BPlusTreeConfig {
    fn default() -> (c: Self)
        ensures
            c == usual(),
            c.initial_capacity_pages == 64,
            c.compaction_ratio.num == 1,
            c.compaction_ratio.den == 2,
    {
        BPlusTreeConfig {
            initial_capacity_pages: DEFAULT_INITIAL_CAPACITY_PAGES,
            compaction_ratio: Ratio { num: 1, den: 2 },
        }
    }
}

impl View for BPlusTree {
    type V = Map<Seq<u8>, Seq<u8>>;

    closed spec fn view(&self) -> Map<Seq<u8>, Seq<u8>> {
        self.model@.map
    }
}

} // verus!
