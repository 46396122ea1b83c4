//! The shape of a B+ tree laid out over pages, as a ghost value beside the pages.
//!
//! Every page in use has a kind. Tree pages carry their level (leaves have level zero), the
//! key range they are responsible for and their parent. The ranges of the children of an
//! internal page are cut by its separators, so that a descent which keeps the key within the
//! range of the current page ends at the only leaf that may hold the key.

use crate::engine::btree::MAX_INLINE;
use crate::engine::page;
use crate::utils::le;
use crate::utils::lex;
use vstd::prelude::*;

verus! {

/// Longest key: its cell must fit a page even when the value is kept outside.
pub const MAX_KEY: usize = 4056;

/// A tree page: its level, key range and parent (zero for a page without one).
pub struct Node {
    pub level: nat,
    pub lo: Option<Seq<u8>>,
    pub hi: Option<Seq<u8>>,
    pub parent: int,
}

/// What a page is used for.
pub enum Kind {
    Tree(Node),
    Free,
    Extent(Seq<u8>),
}

/// The tree that a sequence of pages stands for.
pub struct Model {
    /// The kind of each page in use; the meta page has none.
    pub kind: Map<int, Kind>,
    /// The leaves from left to right.
    pub leaves: Seq<int>,
    /// The freelist from its head on.
    pub free: Seq<int>,
    /// The topmost tree pages from left to right: the root alone, except while a tree is
    /// built from its leaves.
    pub tops: Seq<int>,
    /// What the leaves hold.
    pub map: Map<Seq<u8>, Seq<u8>>,
}

pub open spec fn is_tree(m: Model, p: int) -> bool {
    m.kind.contains_key(p) && m.kind[p] is Tree
}

pub open spec fn node(m: Model, p: int) -> Node {
    m.kind[p]->Tree_0
}

pub open spec fn is_leaf(m: Model, p: int) -> bool {
    is_tree(m, p) && node(m, p).level == 0
}

pub open spec fn is_inner(m: Model, p: int) -> bool {
    is_tree(m, p) && node(m, p).level > 0
}

pub open spec fn is_extent(m: Model, p: int) -> bool {
    m.kind.contains_key(p) && m.kind[p] is Extent
}

/// `k` lies in the range from `lo` on and before `hi`.
pub open spec fn in_range(k: Seq<u8>, lo: Option<Seq<u8>>, hi: Option<Seq<u8>>) -> bool {
    &&& lo is Some ==> !lex::lt(k, lo->0)
    &&& hi is Some ==> lex::lt(k, hi->0)
}

/// `k` lies strictly between `lo` and `hi`.
pub open spec fn inside(k: Seq<u8>, lo: Option<Seq<u8>>, hi: Option<Seq<u8>>) -> bool {
    &&& lo is Some ==> lex::lt(lo->0, k)
    &&& hi is Some ==> lex::lt(k, hi->0)
}

/// Pages that a value of `n` bytes takes.
pub open spec fn extent_pages(n: int) -> int {
    (n + page::PAGE_SIZE - 1) / page::PAGE_SIZE as int
}

/// Byte `i` of the run of pages that starts at `s`.
pub open spec fn extent_byte(img: Seq<Seq<u8>>, s: int, i: int) -> u8 {
    img[s + i / page::PAGE_SIZE as int][i % page::PAGE_SIZE as int]
}

/// The first `n` bytes of the run of pages that starts at `s`.
pub open spec fn extent_bytes(img: Seq<Seq<u8>>, s: int, n: int) -> Seq<u8> {
    Seq::new(n as nat, |i: int| extent_byte(img, s, i))
}

/// The value of a leaf cell.
pub open spec fn value_of(img: Seq<Seq<u8>>, c: Seq<u8>) -> Seq<u8> {
    if page::raw_of(c) >= page::OVFL_FLAG {
        extent_bytes(img, page::extent_of(c) as int, page::raw_of(c) - page::OVFL_FLAG)
    } else {
        page::payload_of(c)
    }
}

/// The pages of the cell's extent, if it has one, belong to its key.
pub open spec fn extent_owned(m: Model, c: Seq<u8>) -> bool {
    page::raw_of(c) >= page::OVFL_FLAG ==> forall|q: int|
        page::extent_of(c) <= q < page::extent_of(c) + extent_pages(page::raw_of(c) - page::OVFL_FLAG)
            ==> #[trigger] m.kind.contains_key(q) && m.kind[q] == Kind::Extent(page::key_of(true, c))
}

/// The value is in the leaf where the entry is small enough for that, in pages of its own
/// otherwise.
pub open spec fn form_ok(c: Seq<u8>) -> bool {
    if page::raw_of(c) >= page::OVFL_FLAG {
        page::key_of(true, c).len() + page::raw_of(c) - page::OVFL_FLAG + 6 > MAX_INLINE
    } else {
        page::key_of(true, c).len() + page::raw_of(c) + 6 <= MAX_INLINE
    }
}

/// A leaf cell that agrees with the map.
pub open spec fn entry_ok(img: Seq<Seq<u8>>, m: Model, nd: Node, c: Seq<u8>) -> bool {
    let k = page::key_of(true, c);
    &&& k.len() <= MAX_KEY
    &&& in_range(k, nd.lo, nd.hi)
    &&& m.map.contains_key(k)
    &&& m.map[k] == value_of(img, c)
    &&& extent_owned(m, c)
    &&& form_ok(c)
}

pub open spec fn has_key(cs: Seq<Seq<u8>>, k: Seq<u8>) -> bool {
    exists|i: int| 0 <= i < cs.len() && page::key_of(true, #[trigger] cs[i]) == k
}

/// Page `p` holds a well-formed leaf whose entries agree with the map.
#[verifier::opaque]
pub open spec fn leaf_inv(img: Seq<Seq<u8>>, m: Model, p: int) -> bool {
    let cs = page::cells(true, img[p]);
    &&& page::page_ok(true, img[p])
    &&& img[p][0] == page::PAGE_LEAF
    &&& page::keys_sorted(true, cs)
    &&& forall|i: int| 0 <= i < cs.len() ==> entry_ok(img, m, node(m, p), #[trigger] cs[i])
    &&& forall|k: Seq<u8>|
        #[trigger] m.map.contains_key(k) && in_range(k, node(m, p).lo, node(m, p).hi) ==> has_key(cs, k)
}

/// Child `i` of an internal page with leftmost child `lm` and cells `cs`.
pub open spec fn kid_of(lm: int, cs: Seq<Seq<u8>>, i: int) -> int {
    if i == 0 {
        lm
    } else {
        page::child_of(cs[i - 1]) as int
    }
}

/// Child `i` of an internal page.
pub open spec fn kid(b: Seq<u8>, i: int) -> int {
    kid_of(le::u64_at(b, 8) as int, page::cells(false, b), i)
}

/// Separator `i` of an internal page.
pub open spec fn sep(b: Seq<u8>, i: int) -> Seq<u8> {
    page::key_of(false, page::cells(false, b)[i])
}

/// Where the range of child `i` starts.
pub open spec fn kid_lo(cs: Seq<Seq<u8>>, nd: Node, i: int) -> Option<Seq<u8>> {
    if i == 0 {
        nd.lo
    } else {
        Some(page::key_of(false, cs[i - 1]))
    }
}

/// Where the range of child `i` ends.
pub open spec fn kid_hi(cs: Seq<Seq<u8>>, nd: Node, i: int) -> Option<Seq<u8>> {
    if i == cs.len() {
        nd.hi
    } else {
        Some(page::key_of(false, cs[i]))
    }
}

/// Where the range of `p` ends in the eyes of its parent: a page that was just split still
/// stands for its right half as well.
pub open spec fn span_hi(m: Model, pend: Option<(int, int)>, p: int) -> Option<Seq<u8>> {
    match pend {
        Some((l, r)) => if p == l {
            node(m, r).hi
        } else {
            node(m, p).hi
        },
        None => node(m, p).hi,
    }
}

/// Child `i` of page `p`.
pub open spec fn kid_ok(img: Seq<Seq<u8>>, m: Model, pend: Option<(int, int)>, p: int, i: int) -> bool {
    let b = img[p];
    let c = kid(b, i);
    &&& is_tree(m, c)
    &&& node(m, c).level + 1 == node(m, p).level
    &&& node(m, c).parent == p
    &&& node(m, c).lo == kid_lo(page::cells(false, b), node(m, p), i)
    &&& span_hi(m, pend, c) == kid_hi(page::cells(false, b), node(m, p), i)
}

/// Page `p` holds a well-formed internal page.
#[verifier::opaque]
pub open spec fn inner_inv(img: Seq<Seq<u8>>, m: Model, pend: Option<(int, int)>, p: int) -> bool {
    let cs = page::cells(false, img[p]);
    &&& page::page_ok(false, img[p])
    &&& img[p][0] == page::PAGE_INTERNAL
    &&& page::keys_sorted(false, cs)
    &&& forall|i: int| 0 <= i < cs.len() ==> page::key_of(false, #[trigger] cs[i]).len() <= MAX_KEY
    &&& forall|i: int| 0 <= i < cs.len() ==> inside(
        page::key_of(false, #[trigger] cs[i]),
        node(m, p).lo,
        node(m, p).hi,
    )
    &&& forall|i: int| #![trigger kid(img[p], i)] 0 <= i <= cs.len() ==> kid_ok(img, m, pend, p, i)
}

/// The pages are of one size and every page in use is among the first `n`.
pub open spec fn bounds_inv(img: Seq<Seq<u8>>, m: Model, n: int) -> bool {
    &&& 1 <= n <= img.len()
    &&& forall|i: int| 0 <= i < img.len() ==> (#[trigger] img[i]).len() == page::PAGE_SIZE
    &&& forall|q: int| #[trigger] m.kind.contains_key(q) ==> 1 <= q < n
}

/// The range of a page holds at least its start.
pub open spec fn has_span(nd: Node) -> bool {
    nd.lo is Some && nd.hi is Some ==> lex::lt(nd.lo->0, nd.hi->0)
}

/// Leaf `i` of the chain: its neighbours and where its range meets theirs.
pub open spec fn link_ok(img: Seq<Seq<u8>>, m: Model, i: int) -> bool {
    let ls = m.leaves;
    let p = ls[i];
    &&& is_leaf(m, p)
    &&& has_span(node(m, p))
    &&& i == 0 ==> node(m, p).lo is None && prev_of(img[p]) == 0
    &&& i > 0 ==> prev_of(img[p]) == ls[i - 1]
    &&& i == ls.len() - 1 ==> node(m, p).hi is None && next_of(img[p]) == 0
    &&& i < ls.len() - 1 ==> next_of(img[p]) == ls[i + 1] && node(m, p).hi == node(m, ls[i + 1]).lo
}

/// The leaf chain.
#[verifier::opaque]
pub open spec fn chain_inv(img: Seq<Seq<u8>>, m: Model) -> bool {
    let ls = m.leaves;
    &&& ls.len() >= 1
    &&& forall|i: int| 0 <= i < ls.len() ==> #[trigger] link_ok(img, m, i)
    &&& forall|p: int| #[trigger] is_leaf(m, p) ==> ls.contains(p)
    &&& forall|i: int, j: int| 0 <= i < j < ls.len() ==> before(m, #[trigger] ls[i], #[trigger] ls[j])
}

/// The range of `p` ends where that of `q` starts, or before.
pub open spec fn before(m: Model, p: int, q: int) -> bool {
    &&& p != q
    &&& node(m, p).hi is Some
    &&& node(m, q).lo is Some
    &&& lex::le(node(m, p).hi->0, node(m, q).lo->0)
}

pub open spec fn next_of(b: Seq<u8>) -> int {
    le::u64_at(b, 8) as int
}

pub open spec fn prev_of(b: Seq<u8>) -> int {
    le::u64_at(b, 16) as int
}

/// Topmost page `i`.
pub open spec fn top_ok(m: Model, pend: Option<(int, int)>, i: int) -> bool {
    let ts = m.tops;
    let p = ts[i];
    &&& is_tree(m, p)
    &&& node(m, p).parent == 0
    &&& i == 0 ==> node(m, p).lo is None
    &&& i == ts.len() - 1 ==> span_hi(m, pend, p) is None
    &&& i < ts.len() - 1 ==> span_hi(m, pend, p) == node(m, ts[i + 1]).lo
}

/// The topmost pages.
#[verifier::opaque]
pub open spec fn tops_inv(m: Model, pend: Option<(int, int)>) -> bool {
    let ts = m.tops;
    &&& ts.len() >= 1
    &&& forall|i: int| 0 <= i < ts.len() ==> #[trigger] top_ok(m, pend, i)
    &&& forall|i: int, j: int| 0 <= i < j < ts.len() ==> #[trigger] ts[i] != #[trigger] ts[j]
}

/// Free page `i` and its link.
pub open spec fn free_ok(img: Seq<Seq<u8>>, m: Model, i: int) -> bool {
    let fs = m.free;
    &&& m.kind.contains_key(fs[i])
    &&& m.kind[fs[i]] == Kind::Free
    &&& le::u64_at(img[fs[i]], 0) as int == (if i + 1 < fs.len() {
        fs[i + 1]
    } else {
        0
    })
}

/// The freelist, chained through the first eight bytes of its pages. Every free page is on it.
#[verifier::opaque]
pub open spec fn free_inv(img: Seq<Seq<u8>>, m: Model) -> bool {
    let fs = m.free;
    &&& forall|i: int| 0 <= i < fs.len() ==> #[trigger] free_ok(img, m, i)
    &&& forall|i: int, j: int| 0 <= i < j < fs.len() ==> #[trigger] fs[i] != #[trigger] fs[j]
    &&& forall|q: int| #[trigger] m.kind.contains_key(q) && m.kind[q] == Kind::Free ==> fs.contains(q)
}

/// A split whose right half has no parent yet.
pub open spec fn pend_inv(m: Model, pend: Option<(int, int)>) -> bool {
    match pend {
        Some((l, r)) => {
            &&& l != r
            &&& is_tree(m, l)
            &&& is_tree(m, r)
            &&& node(m, l).level == node(m, r).level
            &&& node(m, r).parent == 0
            &&& node(m, l).hi is Some
            &&& node(m, l).hi == node(m, r).lo
            &&& inside(node(m, l).hi->0, node(m, l).lo, node(m, r).hi)
            &&& node(m, l).hi->0.len() <= MAX_KEY
            &&& !m.tops.contains(r)
        },
        None => true,
    }
}

/// The pages hold the tree `m`.
pub open spec fn inv(img: Seq<Seq<u8>>, m: Model, pend: Option<(int, int)>, n: int) -> bool {
    &&& bounds_inv(img, m, n)
    &&& forall|p: int| #[trigger] is_leaf(m, p) ==> leaf_inv(img, m, p)
    &&& forall|p: int| #[trigger] is_inner(m, p) ==> inner_inv(img, m, pend, p)
    &&& chain_inv(img, m)
    &&& tops_inv(m, pend)
    &&& free_inv(img, m)
    &&& pend_inv(m, pend)
}

/// Bytes that the entries of the given leaves take with their slots.
pub open spec fn leaf_bytes(img: Seq<Seq<u8>>, ls: Seq<int>) -> int
    decreases ls.len(),
{
    if ls.len() == 0 {
        0
    } else {
        leaf_bytes(img, ls.drop_last()) + page::used(page::cells(true, img[ls.last()]))
    }
}

/// Leaf `a` has no room for the first cell of leaf `b`.
pub open spec fn tight(img: Seq<Seq<u8>>, a: int, b: int) -> bool {
    let next = page::cells(true, img[b]);
    next.len() > 0 && page::used(page::cells(true, img[a])) + next[0].len() + 2 > page::page_room(true)
}

/// Every leaf but the last is full: it has no room for the first cell of the next one.
pub open spec fn packed(img: Seq<Seq<u8>>, ls: Seq<int>) -> bool {
    forall|i: int, j: int| 0 <= i && j == i + 1 && j < ls.len() ==> tight(img, #[trigger] ls[i], #[trigger] ls[j])
}

/// Two maps agree but for the key `k0`.
pub open spec fn maps_agree(a: Map<Seq<u8>, Seq<u8>>, b: Map<Seq<u8>, Seq<u8>>, k0: Option<Seq<u8>>) -> bool {
    forall|k: Seq<u8>|
        (k0 is Some ==> k != k0->0) ==> #[trigger] b.contains_key(k) == a.contains_key(k) && (a.contains_key(k)
            ==> b[k] == a[k])
}

/// Extents that do not belong to `k0` keep their pages and bytes.
pub open spec fn extents_kept(img: Seq<Seq<u8>>, m: Model, img2: Seq<Seq<u8>>, m2: Model, k0: Option<Seq<u8>>) -> bool {
    forall|q: int|
        #[trigger] m.kind.contains_key(q) && m.kind[q] is Extent && (k0 is Some ==> m.kind[q]->Extent_0 != k0->0)
            ==> m2.kind.contains_key(q) && m2.kind[q] == m.kind[q] && img2[q] == img[q]
}

/// A cell's value rests on the pages of its own extent only.
pub proof fn lemma_value_kept(img: Seq<Seq<u8>>, m: Model, img2: Seq<Seq<u8>>, m2: Model, c: Seq<u8>)
    requires
        extent_owned(m, c),
        forall|q: int|
            #[trigger] m.kind.contains_key(q) && m.kind[q] == Kind::Extent(page::key_of(true, c))
                ==> m2.kind.contains_key(q) && m2.kind[q] == m.kind[q] && img2[q] == img[q],
    ensures
        value_of(img2, c) == value_of(img, c),
        extent_owned(m2, c),
{
    if page::raw_of(c) >= page::OVFL_FLAG {
        let s = page::extent_of(c) as int;
        let n = page::raw_of(c) - page::OVFL_FLAG;
        assert forall|i: int| 0 <= i < n implies #[trigger] extent_byte(img2, s, i) == extent_byte(img, s, i) by {
            let q = s + i / page::PAGE_SIZE as int;
            assert(i / page::PAGE_SIZE as int >= 0);
            assert(i / page::PAGE_SIZE as int <= (n + page::PAGE_SIZE - 1) / page::PAGE_SIZE as int - 1);
            assert(m.kind.contains_key(q));
        }
        assert(extent_bytes(img2, s, n) =~= extent_bytes(img, s, n));
        assert forall|q: int| s <= q < s + extent_pages(n) implies #[trigger] m2.kind.contains_key(q) && m2.kind[q]
            == Kind::Extent(page::key_of(true, c)) by {
            assert(m.kind.contains_key(q));
        }
    }
}

/// A leaf page that is not touched stays well formed when the map changes only at `k0`,
/// which it does not hold, and other keys keep their extents.
pub proof fn lemma_leaf_frame(
    img: Seq<Seq<u8>>,
    m: Model,
    img2: Seq<Seq<u8>>,
    m2: Model,
    p: int,
    k0: Option<Seq<u8>>,
)
    requires
        leaf_inv(img, m, p),
        page::page_ok(true, img[p]) ==> page::page_ok(true, img2[p]),
        page::cells(true, img2[p]) == page::cells(true, img[p]),
        img2[p][0] == img[p][0],
        node(m2, p).lo == node(m, p).lo,
        node(m2, p).hi == node(m, p).hi,
        extents_kept(img, m, img2, m2, k0),
        k0 is Some && in_range(k0->0, node(m, p).lo, node(m, p).hi) ==> !m.map.contains_key(k0->0)
            && !m2.map.contains_key(k0->0),
        maps_agree(m.map, m2.map, k0),
    ensures
        leaf_inv(img2, m2, p),
{
    reveal(leaf_inv);
    let cs = page::cells(true, img[p]);
    assert forall|i: int| 0 <= i < cs.len() implies entry_ok(img2, m2, node(m2, p), #[trigger] cs[i]) by {
        let c = cs[i];
        assert(entry_ok(img, m, node(m, p), c));
        lemma_value_kept(img, m, img2, m2, c);
        assert(m2.map.contains_key(page::key_of(true, c)));
    }
}

/// An internal page that is not touched stays well formed when its children keep their
/// ranges and parents.
pub proof fn lemma_inner_frame(
    img: Seq<Seq<u8>>,
    m: Model,
    pend: Option<(int, int)>,
    img2: Seq<Seq<u8>>,
    m2: Model,
    pend2: Option<(int, int)>,
    p: int,
)
    requires
        inner_inv(img, m, pend, p),
        page::page_ok(false, img[p]) ==> page::page_ok(false, img2[p]),
        page::cells(false, img2[p]) == page::cells(false, img[p]),
        img2[p][0] == img[p][0],
        le::u64_at(img2[p], 8) == le::u64_at(img[p], 8),
        m2.kind[p] == m.kind[p],
        forall|c: int|
            #[trigger] is_tree(m, c) && node(m, c).parent == p ==> {
                &&& is_tree(m2, c)
                &&& node(m2, c).level == node(m, c).level
                &&& node(m2, c).parent == p
                &&& node(m2, c).lo == node(m, c).lo
                &&& span_hi(m2, pend2, c) == span_hi(m, pend, c)
            },
    ensures
        inner_inv(img2, m2, pend2, p),
{
    reveal(inner_inv);
    let cs = page::cells(false, img[p]);
    assert forall|i: int| #![trigger kid(img2[p], i)] 0 <= i <= cs.len() implies kid_ok(img2, m2, pend2, p, i) by {
        assert(kid_ok(img, m, pend, p, i)) by {
            assert(kid(img[p], i) == kid(img2[p], i));
        }
        assert(is_tree(m, kid(img[p], i)));
    }
}

/// The only leaf whose range holds a key.
pub proof fn lemma_one_leaf(img: Seq<Seq<u8>>, m: Model, p: int, q: int, k: Seq<u8>)
    requires
        chain_inv(img, m),
        is_leaf(m, p),
        is_leaf(m, q),
        in_range(k, node(m, p).lo, node(m, p).hi),
        in_range(k, node(m, q).lo, node(m, q).hi),
    ensures
        p == q,
{
    reveal(chain_inv);
    lex::order_laws();
    let i = choose|i: int| 0 <= i < m.leaves.len() && m.leaves[i] == p;
    let j = choose|j: int| 0 <= j < m.leaves.len() && m.leaves[j] == q;
    assert(m.leaves.contains(p) && m.leaves.contains(q));
    if i < j {
        assert(before(m, m.leaves[i], m.leaves[j]));
    } else if j < i {
        assert(before(m, m.leaves[j], m.leaves[i]));
    }
}

/// Replacing what a leaf holds: the page `p` becomes `b`, and the map changes at `k0` only.
pub proof fn lemma_leaf_update(
    img: Seq<Seq<u8>>,
    m: Model,
    img2: Seq<Seq<u8>>,
    m2: Model,
    n: int,
    p: int,
    k0: Seq<u8>,
)
    requires
        inv(img, m, None, n),
        is_leaf(m, p),
        in_range(k0, node(m, p).lo, node(m, p).hi),
        img2.len() == img.len(),
        forall|q: int| 0 < q < img.len() && q != p ==> #[trigger] img2[q] == img[q],
        img2[0].len() == page::PAGE_SIZE,
        img2[p].len() == page::PAGE_SIZE,
        next_of(img2[p]) == next_of(img[p]),
        prev_of(img2[p]) == prev_of(img[p]),
        m2.kind == m.kind,
        m2.leaves == m.leaves,
        m2.free == m.free,
        m2.tops == m.tops,
        maps_agree(m.map, m2.map, Some(k0)),
        leaf_inv(img2, m2, p),
    ensures
        inv(img2, m2, None, n),
{
    assert(extents_kept(img, m, img2, m2, Some(k0)));
    assert forall|q: int| #[trigger] is_leaf(m2, q) implies leaf_inv(img2, m2, q) by {
        if q != p {
            assert(is_leaf(m, q));
            if in_range(k0, node(m, q).lo, node(m, q).hi) {
                lemma_one_leaf(img, m, p, q, k0);
            }
            lemma_leaf_frame(img, m, img2, m2, q, Some(k0));
        }
    }
    assert forall|q: int| #[trigger] is_inner(m2, q) implies inner_inv(img2, m2, None, q) by {
        assert(is_inner(m, q));
        lemma_inner_frame(img, m, None, img2, m2, None, q);
    }
    lemma_chain_frame(img, m, img2, m2);
    assert(tops_inv(m2, None)) by {
        reveal(tops_inv);
        assert forall|i: int| 0 <= i < m2.tops.len() implies #[trigger] top_ok(m2, None, i) by {
            assert(top_ok(m, None, i));
        }
    }
    lemma_free_frame(img, m, img2, m2);
}

/// The chain stays when the leaves keep their ranges and links.
pub proof fn lemma_chain_frame(img: Seq<Seq<u8>>, m: Model, img2: Seq<Seq<u8>>, m2: Model)
    requires
        chain_inv(img, m),
        m2.leaves == m.leaves,
        forall|p: int|
            #[trigger] is_leaf(m, p) ==> {
                &&& is_leaf(m2, p)
                &&& node(m2, p).lo == node(m, p).lo
                &&& node(m2, p).hi == node(m, p).hi
                &&& next_of(img2[p]) == next_of(img[p])
                &&& prev_of(img2[p]) == prev_of(img[p])
            },
        forall|p: int| #[trigger] is_leaf(m2, p) ==> is_leaf(m, p),
    ensures
        chain_inv(img2, m2),
{
    reveal(chain_inv);
    assert forall|i: int| 0 <= i < m2.leaves.len() implies #[trigger] link_ok(img2, m2, i) by {
        assert(link_ok(img, m, i));
        if i + 1 < m.leaves.len() {
            assert(link_ok(img, m, i + 1));
        }
    }
    assert forall|i: int, j: int| 0 <= i < j < m2.leaves.len() implies before(
        m2,
        #[trigger] m2.leaves[i],
        #[trigger] m2.leaves[j],
    ) by {
        assert(link_ok(img, m, i));
        assert(link_ok(img, m, j));
        assert(before(m, m.leaves[i], m.leaves[j]));
    }
}

/// The freelist stays when its pages do.
pub proof fn lemma_free_frame(img: Seq<Seq<u8>>, m: Model, img2: Seq<Seq<u8>>, m2: Model)
    requires
        free_inv(img, m),
        m2.free == m.free,
        forall|q: int|
            #[trigger] m.kind.contains_key(q) && m.kind[q] == Kind::Free ==> {
                &&& m2.kind.contains_key(q)
                &&& m2.kind[q] == Kind::Free
                &&& img2[q] == img[q]
            },
        forall|q: int|
            #[trigger] m2.kind.contains_key(q) && m2.kind[q] == Kind::Free ==> m.kind.contains_key(q) && m.kind[q]
                == Kind::Free,
    ensures
        free_inv(img2, m2),
{
    reveal(free_inv);
    assert forall|i: int| 0 <= i < m2.free.len() implies #[trigger] free_ok(img2, m2, i) by {
        assert(free_ok(img, m, i));
    }
}

pub proof fn lemma_leaf_bytes_frame(img: Seq<Seq<u8>>, img2: Seq<Seq<u8>>, ls: Seq<int>)
    requires
        forall|i: int| 0 <= i < ls.len() ==> page::cells(true, img2[#[trigger] ls[i]]) == page::cells(true, img[ls[i]]),
    ensures
        leaf_bytes(img2, ls) == leaf_bytes(img, ls),
    decreases ls.len(),
{
    if ls.len() > 0 {
        assert forall|i: int| 0 <= i < ls.drop_last().len() implies page::cells(
            true,
            img2[#[trigger] ls.drop_last()[i]],
        ) == page::cells(true, img[ls.drop_last()[i]]) by {
            assert(ls.drop_last()[i] == ls[i]);
        }
        lemma_leaf_bytes_frame(img, img2, ls.drop_last());
        assert(ls[ls.len() - 1] == ls.last());
    }
}

/// Pages that are not part of the tree may change their use.
pub proof fn lemma_frame(
    img: Seq<Seq<u8>>,
    m: Model,
    pend: Option<(int, int)>,
    n: int,
    img2: Seq<Seq<u8>>,
    m2: Model,
    n2: int,
    k0: Option<Seq<u8>>,
)
    requires
        inv(img, m, pend, n),
        bounds_inv(img2, m2, n2),
        m2.leaves == m.leaves,
        m2.tops == m.tops,
        m2.map == m.map,
        k0 is Some ==> !m.map.contains_key(k0->0),
        forall|q: int| #[trigger] is_tree(m, q) ==> is_tree(m2, q) && m2.kind[q] == m.kind[q] && img2[q] == img[q],
        forall|q: int| #[trigger] is_tree(m2, q) ==> is_tree(m, q),
        extents_kept(img, m, img2, m2, k0),
        free_inv(img2, m2),
    ensures
        inv(img2, m2, pend, n2),
        leaf_bytes(img2, m2.leaves) == leaf_bytes(img, m.leaves),
{
    if let Some((l, r)) = pend {
        assert(is_tree(m, l) && is_tree(m, r));
    }
    assert forall|q: int| #[trigger] is_leaf(m2, q) implies leaf_inv(img2, m2, q) by {
        assert(is_tree(m2, q));
        assert(is_tree(m, q));
        assert(is_leaf(m, q));
        lemma_leaf_frame(img, m, img2, m2, q, k0);
    }
    assert forall|q: int| #[trigger] is_inner(m2, q) implies inner_inv(img2, m2, pend, q) by {
        assert(is_tree(m2, q));
        assert(is_tree(m, q));
        assert(is_inner(m, q));
        lemma_inner_frame(img, m, pend, img2, m2, pend, q);
    }
    assert forall|p: int| #[trigger] is_leaf(m, p) implies is_leaf(m2, p) && m2.kind[p] == m.kind[p] && img2[p]
        == img[p] by {
        assert(is_tree(m, p));
    }
    assert forall|p: int| #[trigger] is_leaf(m2, p) implies is_leaf(m, p) by {
        assert(is_tree(m2, p));
        assert(is_tree(m, p));
    }
    lemma_chain_frame(img, m, img2, m2);
    assert(tops_inv(m2, pend)) by {
        reveal(tops_inv);
        assert forall|i: int| 0 <= i < m2.tops.len() implies #[trigger] top_ok(m2, pend, i) by {
            assert(top_ok(m, pend, i));
            assert(is_tree(m, m.tops[i]));
            if i + 1 < m.tops.len() {
                assert(top_ok(m, pend, i + 1));
                assert(is_tree(m, m.tops[i + 1]));
            }
        }
    }
    assert forall|i: int| 0 <= i < m.leaves.len() implies page::cells(true, img2[#[trigger] m.leaves[i]])
        == page::cells(true, img[m.leaves[i]]) by {
        reveal(chain_inv);
        assert(link_ok(img, m, i));
        assert(is_tree(m, m.leaves[i]));
    }
    lemma_leaf_bytes_frame(img, img2, m.leaves);
}

/// A sequence of distinct numbers from a range is no longer than the range.
pub proof fn lemma_distinct_bound(s: Seq<int>, n: int)
    requires
        n >= 1,
        forall|i: int| 0 <= i < s.len() ==> 1 <= #[trigger] s[i] < n,
        forall|i: int, j: int| 0 <= i < j < s.len() ==> #[trigger] s[i] != #[trigger] s[j],
    ensures
        s.len() < n,
{
    assert(s.no_duplicates());
    s.unique_seq_to_set();
    vstd::set_lib::lemma_int_range(1, n);
    assert(s.to_set().subset_of(vstd::set_lib::set_int_range(1, n)));
    vstd::set_lib::lemma_len_subset(s.to_set(), vstd::set_lib::set_int_range(1, n));
}

/// A run of pages becomes the extent of `k`.
pub open spec fn with_extent(kind: Map<int, Kind>, s: int, n: int, k: Seq<u8>) -> Map<int, Kind> {
    Map::new(
        |q: int| kind.contains_key(q) || s <= q < s + n,
        |q: int|
            if s <= q < s + n {
                Kind::Extent(k)
            } else {
                kind[q]
            },
    )
}

/// From index `at` on, the freelist holds `n` pages that descend by one to `last`.
pub open spec fn free_run(f: Seq<int>, at: int, n: int, prev: int, last: int, next: int) -> bool {
    &&& 0 <= at
    &&& n >= 1
    &&& at + n <= f.len()
    &&& prev == (if at > 0 {
        f[at - 1]
    } else {
        0
    })
    &&& forall|j: int| 0 <= j < n ==> #[trigger] f[at + j] == last + (n - 1) - j
    &&& next == (if at + n < f.len() {
        f[at + n]
    } else {
        0
    })
}

/// From index `at` on, the freelist holds `n` pages of which each is one less than the one before.
pub open spec fn run_at(f: Seq<int>, at: int, n: int) -> bool {
    &&& 0 <= at
    &&& n >= 1
    &&& at + n <= f.len()
    &&& forall|j: int| 0 <= j < n ==> #[trigger] f[at + j] == f[at] - j
}

/// The first such run starts at `at`.
pub open spec fn first_run(f: Seq<int>, at: int, n: int) -> bool {
    run_at(f, at, n) && forall|b: int| 0 <= b < at ==> !#[trigger] run_at(f, b, n)
}

/// There is no such run.
pub open spec fn no_run(f: Seq<int>, n: int) -> bool {
    forall|at: int| !#[trigger] run_at(f, at, n)
}

/// The pages from `s` on.
pub open spec fn span(s: int, n: int) -> Seq<int> {
    Seq::new(n as nat, |i: int| s + i)
}

/// The pages were put on the freelist one after the other.
pub open spec fn freed(m: Model, ps: Seq<int>) -> Model {
    Model {
        kind: Map::new(
            |q: int| m.kind.contains_key(q) || ps.contains(q),
            |q: int|
                if ps.contains(q) {
                    Kind::Free
                } else {
                    m.kind[q]
                },
        ),
        free: ps.reverse() + m.free,
        ..m
    }
}

/// One more page on the freelist.
pub proof fn lemma_freed_push(m: Model, ps: Seq<int>, p: int)
    ensures
        freed(m, ps.push(p)).kind == freed(m, ps).kind.insert(p, Kind::Free),
        freed(m, ps.push(p)).free == seq![p] + freed(m, ps).free,
{
    let qs = ps.push(p);
    assert forall|q: int| #[trigger] qs.contains(q) == (ps.contains(q) || q == p) by {
        if ps.contains(q) {
            let i = choose|i: int| 0 <= i < ps.len() && ps[i] == q;
            assert(qs[i] == q);
        }
        assert(qs[ps.len() as int] == p);
    }
    assert(freed(m, qs).kind =~= freed(m, ps).kind.insert(p, Kind::Free));
    assert(qs.reverse() =~= seq![p] + ps.reverse());
    assert(freed(m, qs).free =~= seq![p] + freed(m, ps).free);
}

/// Nothing freed.
pub proof fn lemma_freed_none(m: Model)
    ensures
        freed(m, Seq::empty()) == m,
{
    assert(freed(m, Seq::empty()).kind =~= m.kind);
    assert(freed(m, Seq::empty()).free =~= m.free);
}

/// The pages of a run of the freelist are free.
pub proof fn lemma_run_free(img: Seq<Seq<u8>>, m: Model, ci: int, n: int, prev: int, last: int, next: int)
    requires
        free_inv(img, m),
        free_run(m.free, ci, n, prev, last, next),
    ensures
        forall|q: int| last <= q < last + n ==> #[trigger] m.kind.contains_key(q) && m.kind[q] == Kind::Free,
        ci > 0 ==> m.kind.contains_key(prev) && m.kind[prev] == Kind::Free,
{
    reveal(free_inv);
    assert forall|q: int| last <= q < last + n implies #[trigger] m.kind.contains_key(q) && m.kind[q] == Kind::Free by {
        assert(m.free[ci + (last + n - 1 - q)] == q);
        assert(free_ok(img, m, ci + (last + n - 1 - q)));
    }
    if ci > 0 {
        assert(free_ok(img, m, ci - 1));
    }
}

/// The freelist without a run that became an extent.
pub proof fn lemma_take_run(
    img: Seq<Seq<u8>>,
    m: Model,
    img2: Seq<Seq<u8>>,
    m2: Model,
    ci: int,
    n: int,
    prev: int,
    last: int,
    next: int,
    key: Seq<u8>,
)
    requires
        free_inv(img, m),
        free_run(m.free, ci, n, prev, last, next),
        m2.kind == with_extent(m.kind, last, n, key),
        m2.free == m.free.take(ci) + m.free.skip(ci + n),
        forall|q: int|
            #[trigger] m.kind.contains_key(q) && m.kind[q] == Kind::Free && (ci == 0 || q != prev) ==> img2[q] == img[q],
        ci > 0 ==> le::u64_at(img2[prev], 0) == next,
    ensures
        free_inv(img2, m2),
        m2.free.len() == m.free.len() - n,
        m2.free.len() > 0 ==> m2.free[0] == (if ci > 0 {
            m.free[0]
        } else {
            next
        }),
        m2.free.len() == 0 ==> next == 0,
{
    reveal(free_inv);
    let f = m.free;
    let cur = last + n - 1;
    assert forall|i: int| 0 <= i < f.len() && !(ci <= i < ci + n) implies !(last <= #[trigger] f[i] < last + n) by {
        if last <= f[i] < last + n {
            let j = ci + (cur - f[i]);
            assert(f[ci + (cur - f[i])] == f[i]);
            if i < j {
                assert(f[i] != f[j]);
            } else {
                assert(f[j] != f[i]);
            }
        }
    }
    let old_of = |i: int| if i < ci { i } else { i + n };
    assert forall|i: int| 0 <= i < m2.free.len() implies #[trigger] m2.free[i] == f[old_of(i)] by {}
    assert forall|i: int| 0 <= i < m2.free.len() implies #[trigger] free_ok(img2, m2, i) by {
        let o = old_of(i);
        assert(m2.free[i] == f[o]);
        assert(free_ok(img, m, o));
        if i + 1 < m2.free.len() {
            assert(m2.free[i + 1] == f[old_of(i + 1)]);
        }
        if ci > 0 && o != ci - 1 {
            if o < ci - 1 {
                assert(f[o] != f[ci - 1]);
            } else {
                assert(f[ci - 1] != f[o]);
            }
        }
    }
    assert forall|i: int, j: int| 0 <= i < j < m2.free.len() implies #[trigger] m2.free[i] != #[trigger] m2.free[j] by {
        assert(m2.free[i] == f[old_of(i)] && m2.free[j] == f[old_of(j)]);
        assert(f[old_of(i)] != f[old_of(j)]);
    }
    assert forall|q: int| #[trigger] m2.kind.contains_key(q) && m2.kind[q] == Kind::Free implies m2.free.contains(q) by {
        assert(m.kind.contains_key(q));
        let i = choose|i: int| 0 <= i < f.len() && f[i] == q;
        if ci <= i < ci + n {
            assert(f[ci + (i - ci)] == q);
        } else if i < ci {
            assert(m2.free[i] == q);
        } else {
            assert(m2.free[i - n] == q);
        }
    }
}

/// A key in the range of an internal page lies in the range of the child that its
/// separators point to.
pub proof fn lemma_route(img: Seq<Seq<u8>>, m: Model, p: int, key: Seq<u8>, i: int)
    requires
        inner_inv(img, m, None, p),
        in_range(key, node(m, p).lo, node(m, p).hi),
        0 <= i <= page::cells(false, img[p]).len(),
        i > 0 ==> !lex::lt(key, sep(img[p], i - 1)),
        i < page::cells(false, img[p]).len() ==> lex::lt(key, sep(img[p], i)),
    ensures
        is_tree(m, kid(img[p], i)),
        node(m, kid(img[p], i)).level + 1 == node(m, p).level,
        node(m, kid(img[p], i)).parent == p,
        in_range(key, node(m, kid(img[p], i)).lo, node(m, kid(img[p], i)).hi),
{
    reveal(inner_inv);
    assert(kid_ok(img, m, None, p, i)) by {
        let c = kid(img[p], i);
    }
}

/// The pages of a descent from the root to the page `leaf`, without that page.
pub open spec fn path_ok(img: Seq<Seq<u8>>, m: Model, path: Seq<u64>, leaf: int) -> bool {
    let n = path.len() as int;
    &&& is_tree(m, leaf)
    &&& node(m, m.tops[0]).level == node(m, leaf).level + n
    &&& n == 0 ==> leaf == m.tops[0]
    &&& n > 0 ==> path[0] == m.tops[0] && node(m, leaf).parent == path[n - 1] && listed(img, path[n - 1] as int, leaf)
    &&& forall|i: int| 0 <= i < n ==> is_tree(m, #[trigger] path[i] as int) && node(m, path[i] as int).level == node(
        m,
        leaf,
    ).level + n - i
    &&& forall|i: int, j: int|
        0 <= i && j == i + 1 && j < n ==> node(m, #[trigger] path[j] as int).parent == #[trigger] path[i] && listed(
            img,
            path[i] as int,
            path[j] as int,
        )
}

/// `c` is a child of the internal page `p`.
pub open spec fn listed(img: Seq<Seq<u8>>, p: int, c: int) -> bool {
    exists|i: int| 0 <= i <= page::cells(false, img[p]).len() && #[trigger] kid(img[p], i) == c
}

/// `at` is the slot of `key` in a leaf page, or the slot to put it before.
pub open spec fn slot_found(b: Seq<u8>, key: Seq<u8>, at: int, found: bool) -> bool {
    let cs = page::cells(true, b);
    &&& 0 <= at <= cs.len()
    &&& forall|i: int| 0 <= i < at ==> lex::lt(page::key_of(true, #[trigger] cs[i]), key)
    &&& found ==> at < cs.len() && page::key_of(true, cs[at]) == key
    &&& forall|i: int|
        at <= i < cs.len() && (found ==> i > at) ==> lex::lt(key, page::key_of(true, #[trigger] cs[i]))
}

/// What the slot of a key in the leaf responsible for it says of the map.
pub proof fn lemma_lookup(img: Seq<Seq<u8>>, m: Model, p: int, key: Seq<u8>, at: int, found: bool)
    requires
        leaf_inv(img, m, p),
        in_range(key, node(m, p).lo, node(m, p).hi),
        slot_found(img[p], key, at, found),
    ensures
        found == m.map.contains_key(key),
        found ==> m.map[key] == value_of(img, page::cells(true, img[p])[at]),
        found ==> at < page::page_count(img[p]),
        at <= page::page_count(img[p]),
{
    reveal(leaf_inv);
    lex::order_laws();
    let cs = page::cells(true, img[p]);
    if found {
        assert(entry_ok(img, m, node(m, p), cs[at]));
    } else if m.map.contains_key(key) {
        assert(has_key(cs, key));
        let i = choose|i: int| 0 <= i < cs.len() && page::key_of(true, #[trigger] cs[i]) == key;
        if i < at {
            assert(lex::lt(page::key_of(true, cs[i]), key));
        } else {
            assert(lex::lt(key, page::key_of(true, cs[i])));
        }
    }
}

pub proof fn lemma_sorted_insert(leaf: bool, cs: Seq<Seq<u8>>, pos: int, c: Seq<u8>)
    requires
        page::keys_sorted(leaf, cs),
        0 <= pos <= cs.len(),
        forall|i: int| 0 <= i < pos ==> lex::lt(page::key_of(leaf, #[trigger] cs[i]), page::key_of(leaf, c)),
        forall|i: int| pos <= i < cs.len() ==> lex::lt(page::key_of(leaf, c), page::key_of(leaf, #[trigger] cs[i])),
    ensures
        page::keys_sorted(leaf, cs.insert(pos, c)),
{
    let r = cs.insert(pos, c);
    assert forall|i: int, j: int| 0 <= i < j < r.len() implies lex::lt(
        page::key_of(leaf, #[trigger] r[i]),
        page::key_of(leaf, #[trigger] r[j]),
    ) by {
        let oi = if i < pos {
            i
        } else {
            i - 1
        };
        let oj = if j < pos {
            j
        } else {
            j - 1
        };
        if i == pos {
            assert(r[j] == cs[oj]);
        } else if j == pos {
            assert(r[i] == cs[oi]);
        } else {
            assert(r[i] == cs[oi] && r[j] == cs[oj]);
            assert(lex::lt(page::key_of(leaf, cs[oi]), page::key_of(leaf, cs[oj])));
        }
    }
}

pub proof fn lemma_sorted_remove(leaf: bool, cs: Seq<Seq<u8>>, pos: int)
    requires
        page::keys_sorted(leaf, cs),
        0 <= pos < cs.len(),
    ensures
        page::keys_sorted(leaf, cs.remove(pos)),
{
    let r = cs.remove(pos);
    assert forall|i: int, j: int| 0 <= i < j < r.len() implies lex::lt(
        page::key_of(leaf, #[trigger] r[i]),
        page::key_of(leaf, #[trigger] r[j]),
    ) by {
        let oi = if i < pos {
            i
        } else {
            i + 1
        };
        let oj = if j < pos {
            j
        } else {
            j + 1
        };
        assert(r[i] == cs[oi] && r[j] == cs[oj]);
        assert(lex::lt(page::key_of(leaf, cs[oi]), page::key_of(leaf, cs[oj])));
    }
}

/// A leaf that lost the entry of slot `pos`.
pub proof fn lemma_leaf_removed(img: Seq<Seq<u8>>, m: Model, img2: Seq<Seq<u8>>, m2: Model, p: int, pos: int)
    requires
        leaf_inv(img, m, p),
        0 <= pos < page::cells(true, img[p]).len(),
        page::page_ok(true, img2[p]),
        img2[p][0] == img[p][0],
        page::cells(true, img2[p]) == page::cells(true, img[p]).remove(pos),
        m2.kind == m.kind,
        m2.map == m.map.remove(page::key_of(true, page::cells(true, img[p])[pos])),
        forall|q: int| #[trigger] is_extent(m, q) ==> img2[q] == img[q],
    ensures
        leaf_inv(img2, m2, p),
{
    reveal(leaf_inv);
    lex::order_laws();
    let cs = page::cells(true, img[p]);
    let r = cs.remove(pos);
    let k0 = page::key_of(true, cs[pos]);
    lemma_sorted_remove(true, cs, pos);
    assert forall|i: int| 0 <= i < r.len() implies entry_ok(img2, m2, node(m2, p), #[trigger] r[i]) by {
        let o = if i < pos {
            i
        } else {
            i + 1
        };
        assert(r[i] == cs[o]);
        assert(entry_ok(img, m, node(m, p), cs[o]));
        if o < pos {
            assert(lex::lt(page::key_of(true, cs[o]), k0));
        } else {
            assert(lex::lt(k0, page::key_of(true, cs[o])));
        }
        assert forall|q: int|
            #[trigger] m.kind.contains_key(q) && m.kind[q] == Kind::Extent(
                page::key_of(true, cs[o]),
            ) implies m2.kind.contains_key(q) && m2.kind[q] == m.kind[q] && img2[q] == img[q] by {
            assert(is_extent(m, q));
        }
        lemma_value_kept(img, m, img2, m2, cs[o]);
    }
    assert forall|k: Seq<u8>| #[trigger] m2.map.contains_key(k) && in_range(k, node(m2, p).lo, node(m2, p).hi) implies has_key(
        r,
        k,
    ) by {
        assert(m.map.contains_key(k));
        assert(has_key(cs, k));
        let i = choose|i: int| 0 <= i < cs.len() && page::key_of(true, #[trigger] cs[i]) == k;
        if i < pos {
            assert(r[i] == cs[i]);
        } else {
            assert(r[i - 1] == cs[i]);
        }
    }
}

/// A leaf that got a new entry before slot `pos`.
pub proof fn lemma_leaf_inserted(
    img: Seq<Seq<u8>>,
    m: Model,
    img2: Seq<Seq<u8>>,
    m2: Model,
    p: int,
    pos: int,
    c: Seq<u8>,
)
    requires
        leaf_inv(img, m, p),
        slot_found(img[p], page::key_of(true, c), pos, false),
        in_range(page::key_of(true, c), node(m, p).lo, node(m, p).hi),
        page::key_of(true, c).len() <= MAX_KEY,
        page::page_ok(true, img2[p]),
        img2[p][0] == img[p][0],
        page::cells(true, img2[p]) == page::cells(true, img[p]).insert(pos, c),
        m2.kind == m.kind,
        m2.map == m.map.insert(page::key_of(true, c), value_of(img2, c)),
        extent_owned(m2, c),
        form_ok(c),
        forall|q: int| #[trigger] is_extent(m, q) ==> img2[q] == img[q],
    ensures
        leaf_inv(img2, m2, p),
{
    reveal(leaf_inv);
    lex::order_laws();
    let cs = page::cells(true, img[p]);
    let r = cs.insert(pos, c);
    let k0 = page::key_of(true, c);
    lemma_sorted_insert(true, cs, pos, c);
    assert forall|i: int| 0 <= i < r.len() implies entry_ok(img2, m2, node(m2, p), #[trigger] r[i]) by {
        if i == pos {
            assert(r[i] == c);
        } else {
            let o = if i < pos {
                i
            } else {
                i - 1
            };
            assert(r[i] == cs[o]);
            assert(entry_ok(img, m, node(m, p), cs[o]));
            if o < pos {
                assert(lex::lt(page::key_of(true, cs[o]), k0));
            } else {
                assert(lex::lt(k0, page::key_of(true, cs[o])));
            }
            assert forall|q: int|
                #[trigger] m.kind.contains_key(q) && m.kind[q] == Kind::Extent(
                    page::key_of(true, cs[o]),
                ) implies m2.kind.contains_key(q) && m2.kind[q] == m.kind[q] && img2[q] == img[q] by {
                assert(is_extent(m, q));
            }
            lemma_value_kept(img, m, img2, m2, cs[o]);
        }
    }
    assert forall|k: Seq<u8>| #[trigger] m2.map.contains_key(k) && in_range(k, node(m2, p).lo, node(m2, p).hi) implies has_key(
        r,
        k,
    ) by {
        if k == k0 {
            assert(r[pos] == c);
        } else {
            assert(m.map.contains_key(k));
            assert(has_key(cs, k));
            let i = choose|i: int| 0 <= i < cs.len() && page::key_of(true, #[trigger] cs[i]) == k;
            if i < pos {
                assert(r[i] == cs[i]);
            } else {
                assert(r[i + 1] == cs[i]);
            }
        }
    }
}

/// Changing what one leaf holds changes the total by as much.
pub proof fn lemma_leaf_bytes_change(img: Seq<Seq<u8>>, img2: Seq<Seq<u8>>, ls: Seq<int>, x: int)
    requires
        0 <= x < ls.len(),
        forall|i: int|
            0 <= i < ls.len() && i != x ==> page::cells(true, img2[#[trigger] ls[i]]) == page::cells(true, img[ls[i]]),
    ensures
        leaf_bytes(img2, ls) - page::used(page::cells(true, img2[ls[x]])) == leaf_bytes(img, ls) - page::used(
            page::cells(true, img[ls[x]]),
        ),
    decreases ls.len(),
{
    let d = ls.drop_last();
    assert forall|i: int| 0 <= i < d.len() && i != x implies page::cells(true, img2[#[trigger] d[i]]) == page::cells(
        true,
        img[d[i]],
    ) by {
        assert(d[i] == ls[i]);
    }
    if x == ls.len() - 1 {
        lemma_leaf_bytes_frame(img, img2, d);
    } else {
        lemma_leaf_bytes_change(img, img2, d, x);
        assert(d[x] == ls[x]);
        assert(ls[ls.len() - 1] == ls.last());
    }
}

pub proof fn lemma_leaf_bytes_bound(img: Seq<Seq<u8>>, ls: Seq<int>)
    requires
        forall|i: int| 0 <= i < ls.len() ==> page::page_ok(true, img[#[trigger] ls[i]]),
    ensures
        0 <= leaf_bytes(img, ls) <= 4072 * ls.len(),
    decreases ls.len(),
{
    if ls.len() > 0 {
        let d = ls.drop_last();
        assert forall|i: int| 0 <= i < d.len() implies page::page_ok(true, img[#[trigger] d[i]]) by {
            assert(d[i] == ls[i]);
        }
        lemma_leaf_bytes_bound(img, d);
        assert(page::page_ok(true, img[ls[ls.len() - 1]]));
        page::lemma_page_cells(true, img[ls.last()]);
        page::lemma_used_bound(page::cells(true, img[ls.last()]));
    }
}

/// The leaves are distinct pages in use.
pub proof fn lemma_leaf_count(img: Seq<Seq<u8>>, m: Model, n: int)
    requires
        chain_inv(img, m),
        bounds_inv(img, m, n),
    ensures
        1 <= m.leaves.len() < n,
{
    reveal(chain_inv);
    assert forall|i: int| 0 <= i < m.leaves.len() implies 1 <= #[trigger] m.leaves[i] < n by {
        assert(link_ok(img, m, i));
    }
    assert forall|i: int, j: int| 0 <= i < j < m.leaves.len() implies #[trigger] m.leaves[i]
        != #[trigger] m.leaves[j] by {
        assert(before(m, m.leaves[i], m.leaves[j]));
    }
    lemma_distinct_bound(m.leaves, n);
}

/// The total over the leaves after one of them, `p`, changed.
pub proof fn lemma_leaf_total(img: Seq<Seq<u8>>, m: Model, img2: Seq<Seq<u8>>, n: int, p: int)
    requires
        inv(img, m, None, n),
        is_leaf(m, p),
        forall|q: int| #[trigger] is_leaf(m, q) && q != p ==> img2[q] == img[q],
        page::page_ok(true, img2[p]),
    ensures
        leaf_bytes(img2, m.leaves) == leaf_bytes(img, m.leaves) - page::used(page::cells(true, img[p])) + page::used(
            page::cells(true, img2[p]),
        ),
        0 <= leaf_bytes(img2, m.leaves) <= 4072 * n,
{
    lemma_leaf_count(img, m, n);
    reveal(chain_inv);
    assert(m.leaves.contains(p));
    let x = choose|x: int| 0 <= x < m.leaves.len() && m.leaves[x] == p;
    assert forall|i: int| 0 <= i < m.leaves.len() && i != x implies #[trigger] img2[m.leaves[i]] == img[m.leaves[i]] by {
        assert(link_ok(img, m, i));
        if i < x {
            assert(before(m, m.leaves[i], m.leaves[x]));
        } else {
            assert(before(m, m.leaves[x], m.leaves[i]));
        }
    }
    lemma_leaf_bytes_change(img, img2, m.leaves, x);
    assert forall|i: int| 0 <= i < m.leaves.len() implies page::page_ok(true, img2[#[trigger] m.leaves[i]]) by {
        assert(link_ok(img, m, i));
        reveal(leaf_inv);
        assert(leaf_inv(img, m, m.leaves[i]));
        if i != x {
            assert(img2[m.leaves[i]] == img[m.leaves[i]]);
        }
    }
    lemma_leaf_bytes_bound(img2, m.leaves);
}

/// The model after leaf `p`, the one at `x` of the chain, was split at `s` into itself and
/// `r`.
pub open spec fn split_model(m: Model, p: int, r: int, x: int, s: Seq<u8>, map: Map<Seq<u8>, Seq<u8>>) -> Model {
    let nd = node(m, p);
    Model {
        kind: m.kind.insert(p, Kind::Tree(Node { hi: Some(s), ..nd })).insert(
            r,
            Kind::Tree(Node { level: 0, lo: Some(s), hi: nd.hi, parent: 0 }),
        ),
        leaves: m.leaves.insert(x + 1, r),
        map: map,
        ..m
    }
}

/// What a leaf split leaves of the pages.
pub open spec fn split_pages(img: Seq<Seq<u8>>, img2: Seq<Seq<u8>>, p: int, r: int) -> bool {
    let nx = next_of(img[p]);
    &&& img2.len() == img.len()
    &&& forall|q: int| 0 <= q < img2.len() ==> (#[trigger] img2[q]).len() == page::PAGE_SIZE
    &&& forall|q: int| 0 < q < img.len() && q != p && q != r && q != nx ==> #[trigger] img2[q] == img[q]
    &&& nx != 0 ==> {
        &&& page::same_body(true, img[nx], img2[nx])
        &&& img2[nx][0] == img[nx][0]
        &&& next_of(img2[nx]) == next_of(img[nx])
        &&& prev_of(img2[nx]) == r
    }
    &&& next_of(img2[p]) == r
    &&& prev_of(img2[p]) == prev_of(img[p])
    &&& next_of(img2[r]) == nx
    &&& prev_of(img2[r]) == p
}

/// The chain after a leaf split.
proof fn lemma_split_chain(
    img: Seq<Seq<u8>>,
    m: Model,
    img2: Seq<Seq<u8>>,
    m2: Model,
    n: int,
    p: int,
    r: int,
    x: int,
    s: Seq<u8>,
)
    requires
        chain_inv(img, m),
        bounds_inv(img, m, n),
        0 <= x < m.leaves.len(),
        m.leaves[x] == p,
        !m.kind.contains_key(r),
        1 <= r < n,
        inside(s, node(m, p).lo, node(m, p).hi),
        m2 == split_model(m, p, r, x, s, m2.map),
        split_pages(img, img2, p, r),
    ensures
        chain_inv(img2, m2),
{
    reveal(chain_inv);
    lex::order_laws();
    let ls = m.leaves;
    let ls2 = m2.leaves;
    let len = ls.len() as int;
    let old_of = |i: int| if i <= x { i } else { i - 1 };
    assert(link_ok(img, m, x));
    assert(ls2.len() == len + 1);
    assert(ls2[x + 1] == r);
    assert forall|i: int| 0 <= i <= len && i != x + 1 implies #[trigger] ls2[i] == ls[old_of(i)] by {}
    assert forall|i: int| 0 <= i < len && i != x implies ls[i] != p && #[trigger] ls[i] != r by {
        assert(link_ok(img, m, i));
        if i < x {
            assert(before(m, ls[i], ls[x]));
        } else {
            assert(before(m, ls[x], ls[i]));
        }
    }
    assert forall|i: int| 0 <= i < ls2.len() implies #[trigger] link_ok(img2, m2, i) by {
        if i == x + 1 {
            if x + 1 < len {
                assert(ls2[x + 2] == ls[x + 1]);
                assert(link_ok(img, m, x + 1));
            }
            assert(ls2[x] == ls[x]);
        } else {
            let o = old_of(i);
            assert(ls2[i] == ls[o]);
            assert(link_ok(img, m, o));
            if i + 1 < ls2.len() {
                if i + 1 != x + 1 {
                    assert(ls2[i + 1] == ls[old_of(i + 1)]);
                    assert(link_ok(img, m, old_of(i + 1)));
                }
            }
            if i > 0 && i - 1 != x + 1 {
                assert(ls2[i - 1] == ls[old_of(i - 1)]);
            }
            if i > x + 1 && o == x + 1 {
                assert(next_of(img[p]) == ls[x + 1]);
            }
            if i != x && !(o == x + 1) {
                assert(ls[o] != next_of(img[p])) by {
                    if x + 1 < len {
                        if o < x + 1 {
                            assert(before(m, ls[o], ls[x + 1]));
                        } else {
                            assert(before(m, ls[x + 1], ls[o]));
                        }
                    }
                }
                assert(img2[ls[o]] == img[ls[o]]);
            }
        }
    }
    assert forall|q: int| #[trigger] is_leaf(m2, q) implies ls2.contains(q) by {
        if q == r {
            assert(ls2[x + 1] == q);
        } else {
            assert(is_leaf(m, q));
            assert(ls.contains(q));
            let i = choose|i: int| 0 <= i < len && ls[i] == q;
            if i <= x {
                assert(ls2[i] == q);
            } else {
                assert(ls2[i + 1] == ls[old_of(i + 1)]);
                assert(ls2[i + 1] == q);
            }
        }
    }
    assert forall|i: int, j: int| 0 <= i < j < ls2.len() implies before(m2, #[trigger] ls2[i], #[trigger] ls2[j]) by {
        if i == x + 1 {
            assert(ls2[j] == ls[old_of(j)]);
            assert(before(m, ls[x], ls[old_of(j)]));
        } else if j == x + 1 {
            assert(ls2[i] == ls[i]);
            if i < x {
                assert(before(m, ls[i], ls[x]));
            }
        } else {
            assert(ls2[i] == ls[old_of(i)] && ls2[j] == ls[old_of(j)]);
            assert(before(m, ls[old_of(i)], ls[old_of(j)]));
        }
    }
}

/// A leaf split: the new right page waits for its parent.
pub proof fn lemma_leaf_split(
    img: Seq<Seq<u8>>,
    m: Model,
    img2: Seq<Seq<u8>>,
    m2: Model,
    n: int,
    p: int,
    r: int,
    x: int,
    s: Seq<u8>,
    k0: Option<Seq<u8>>,
)
    requires
        inv(img, m, None, n),
        0 <= x < m.leaves.len(),
        m.leaves[x] == p,
        is_leaf(m, p),
        !m.kind.contains_key(r),
        1 <= r < n,
        inside(s, node(m, p).lo, node(m, p).hi),
        s.len() <= MAX_KEY,
        m2 == split_model(m, p, r, x, s, m2.map),
        split_pages(img, img2, p, r),
        k0 is Some ==> in_range(k0->0, node(m, p).lo, node(m, p).hi),
        maps_agree(m.map, m2.map, k0),
        leaf_inv(img2, m2, p),
        leaf_inv(img2, m2, r),
    ensures
        inv(img2, m2, Some((p, r)), n),
{
    let nx = next_of(img[p]);
    let pend = Some((p, r));
    assert(nx != 0 ==> is_leaf(m, nx)) by {
        reveal(chain_inv);
        assert(link_ok(img, m, x));
        if x + 1 < m.leaves.len() {
            assert(link_ok(img, m, x + 1));
        }
    }
    assert forall|q: int| #[trigger] m.kind.contains_key(q) && q != p && q != nx implies img2[q] == img[q] by {}
    assert(extents_kept(img, m, img2, m2, k0));
    assert forall|q: int| #[trigger] is_leaf(m2, q) implies leaf_inv(img2, m2, q) by {
        if q != p && q != r {
            assert(is_leaf(m, q));
            if k0 is Some && in_range(k0->0, node(m, q).lo, node(m, q).hi) {
                lemma_one_leaf(img, m, p, q, k0->0);
            }
            if q == nx {
                if page::page_ok(true, img[q]) {
                    page::lemma_same_body(true, img[q], img2[q]);
                }
                assert(page::cells(true, img2[q]) == page::cells(true, img[q])) by {
                    reveal(leaf_inv);
                }
            }
            lemma_leaf_frame(img, m, img2, m2, q, k0);
        }
    }
    assert forall|q: int| #[trigger] is_inner(m2, q) implies inner_inv(img2, m2, pend, q) by {
        assert(is_inner(m, q));
        assert forall|c: int| #[trigger] is_tree(m, c) && node(m, c).parent == q implies {
            &&& is_tree(m2, c)
            &&& node(m2, c).level == node(m, c).level
            &&& node(m2, c).parent == q
            &&& node(m2, c).lo == node(m, c).lo
            &&& span_hi(m2, pend, c) == span_hi(m, None, c)
        } by {}
        lemma_inner_frame(img, m, None, img2, m2, pend, q);
    }
    lemma_split_chain(img, m, img2, m2, n, p, r, x, s);
    assert(tops_inv(m2, pend) && !m2.tops.contains(r)) by {
        reveal(tops_inv);
        assert forall|i: int| 0 <= i < m2.tops.len() implies #[trigger] top_ok(m2, pend, i) by {
            assert(top_ok(m, None, i));
            if i + 1 < m.tops.len() {
                assert(top_ok(m, None, i + 1));
            }
        }
        if m2.tops.contains(r) {
            let i = choose|i: int| 0 <= i < m.tops.len() && m.tops[i] == r;
            assert(top_ok(m, None, i));
        }
    }
    assert(free_inv(img2, m2)) by {
        lemma_free_frame(img, m, img2, m2);
    }
}

/// Cells that a leaf with the given range can hold, in order, with all that the map has
/// in that range.
pub open spec fn cells_cover(img: Seq<Seq<u8>>, m: Model, nd: Node, cs: Seq<Seq<u8>>) -> bool {
    &&& page::keys_sorted(true, cs)
    &&& forall|i: int| 0 <= i < cs.len() ==> page::cell_ok(true, #[trigger] cs[i])
    &&& forall|i: int| 0 <= i < cs.len() ==> entry_ok(img, m, nd, #[trigger] cs[i])
    &&& forall|k: Seq<u8>| #[trigger] m.map.contains_key(k) && in_range(k, nd.lo, nd.hi) ==> has_key(cs, k)
}

/// The two halves of a leaf that was cut before cell `mid`.
pub proof fn lemma_halves(
    img: Seq<Seq<u8>>,
    m: Model,
    img2: Seq<Seq<u8>>,
    m2: Model,
    p: int,
    r: int,
    nd: Node,
    cs: Seq<Seq<u8>>,
    mid: int,
    s: Seq<u8>,
)
    requires
        cells_cover(img, m, nd, cs),
        1 <= mid < cs.len(),
        lex::lt(page::key_of(true, cs[mid - 1]), s),
        lex::le(s, page::key_of(true, cs[mid])),
        m2.map == m.map,
        extents_kept(img, m, img2, m2, None),
        node(m2, p).lo == nd.lo,
        node(m2, p).hi == Some(s),
        node(m2, r).lo == Some(s),
        node(m2, r).hi == nd.hi,
        page::page_ok(true, img2[p]),
        page::page_ok(true, img2[r]),
        img2[p][0] == page::PAGE_LEAF,
        img2[r][0] == page::PAGE_LEAF,
        page::cells(true, img2[p]) == cs.take(mid),
        page::cells(true, img2[r]) == cs.skip(mid),
    ensures
        leaf_inv(img2, m2, p),
        leaf_inv(img2, m2, r),
        inside(s, nd.lo, nd.hi),
{
    reveal(leaf_inv);
    lex::order_laws();
    let a = cs.take(mid);
    let b = cs.skip(mid);
    assert forall|i: int| 0 <= i < cs.len() implies value_of(img2, #[trigger] cs[i]) == value_of(img, cs[i])
        && extent_owned(m2, cs[i]) && entry_ok(img, m, nd, cs[i]) by {
        lemma_value_kept(img, m, img2, m2, cs[i]);
    }
    assert forall|i: int| 0 <= i < mid implies lex::lt(page::key_of(true, #[trigger] cs[i]), s) by {
        if i < mid - 1 {
            assert(lex::lt(page::key_of(true, cs[i]), page::key_of(true, cs[mid - 1])));
        }
    }
    assert forall|i: int| mid <= i < cs.len() implies !lex::lt(page::key_of(true, #[trigger] cs[i]), s) by {
        if i > mid {
            assert(lex::lt(page::key_of(true, cs[mid]), page::key_of(true, cs[i])));
        }
    }
    assert(entry_ok(img, m, nd, cs[mid - 1]));
    assert(entry_ok(img, m, nd, cs[mid]));
    assert forall|i: int| 0 <= i < a.len() implies entry_ok(img2, m2, node(m2, p), #[trigger] a[i]) by {
        assert(a[i] == cs[i]);
    }
    assert forall|i: int| 0 <= i < b.len() implies entry_ok(img2, m2, node(m2, r), #[trigger] b[i]) by {
        assert(b[i] == cs[mid + i]);
    }
    assert(page::keys_sorted(true, a)) by {
        assert forall|i: int, j: int| 0 <= i < j < a.len() implies lex::lt(
            page::key_of(true, #[trigger] a[i]),
            page::key_of(true, #[trigger] a[j]),
        ) by {
            assert(a[i] == cs[i] && a[j] == cs[j]);
        }
    }
    assert(page::keys_sorted(true, b)) by {
        assert forall|i: int, j: int| 0 <= i < j < b.len() implies lex::lt(
            page::key_of(true, #[trigger] b[i]),
            page::key_of(true, #[trigger] b[j]),
        ) by {
            assert(b[i] == cs[mid + i] && b[j] == cs[mid + j]);
        }
    }
    assert forall|k: Seq<u8>| #[trigger] m2.map.contains_key(k) && in_range(k, node(m2, p).lo, node(m2, p).hi) implies has_key(
        a,
        k,
    ) by {
        assert(m.map.contains_key(k));
        assert(in_range(k, nd.lo, nd.hi));
        let i = choose|i: int| 0 <= i < cs.len() && page::key_of(true, #[trigger] cs[i]) == k;
        assert(i < mid);
        assert(a[i] == cs[i]);
    }
    assert forall|k: Seq<u8>| #[trigger] m2.map.contains_key(k) && in_range(k, node(m2, r).lo, node(m2, r).hi) implies has_key(
        b,
        k,
    ) by {
        assert(m.map.contains_key(k));
        assert(in_range(k, nd.lo, nd.hi));
        let i = choose|i: int| 0 <= i < cs.len() && page::key_of(true, #[trigger] cs[i]) == k;
        assert(i >= mid);
        assert(b[i - mid] == cs[i]);
    }
}

/// A leaf more adds what it holds to the total.
pub proof fn lemma_leaf_bytes_insert(img: Seq<Seq<u8>>, ls: Seq<int>, x: int, r: int)
    requires
        0 <= x <= ls.len(),
    ensures
        leaf_bytes(img, ls.insert(x, r)) == leaf_bytes(img, ls) + page::used(page::cells(true, img[r])),
    decreases ls.len(),
{
    let l2 = ls.insert(x, r);
    if x == ls.len() {
        assert(l2.drop_last() =~= ls);
    } else {
        assert(l2.drop_last() =~= ls.drop_last().insert(x, r));
        lemma_leaf_bytes_insert(img, ls.drop_last(), x, r);
    }
}

/// The total over the leaves after a split.
pub proof fn lemma_split_total(
    img: Seq<Seq<u8>>,
    m: Model,
    img2: Seq<Seq<u8>>,
    n: int,
    p: int,
    r: int,
    x: int,
)
    requires
        inv(img, m, None, n),
        is_leaf(m, p),
        0 <= x < m.leaves.len(),
        m.leaves[x] == p,
        split_pages(img, img2, p, r),
        !m.kind.contains_key(r),
        page::page_ok(true, img2[p]),
        page::page_ok(true, img2[r]),
    ensures
        leaf_bytes(img2, m.leaves.insert(x + 1, r)) == leaf_bytes(img, m.leaves) - page::used(
            page::cells(true, img[p]),
        ) + page::used(page::cells(true, img2[p])) + page::used(page::cells(true, img2[r])),
        page::used(page::cells(true, img[p])) <= leaf_bytes(img, m.leaves) <= 4072 * n,
        1 <= m.leaves.len() < n,
{
    lemma_leaf_count(img, m, n);
    let nx = next_of(img[p]);
    assert forall|i: int| 0 <= i < m.leaves.len() && i != x implies page::cells(true, img2[#[trigger] m.leaves[i]])
        == page::cells(true, img[m.leaves[i]]) by {
        reveal(chain_inv);
        assert(link_ok(img, m, i));
        if i < x {
            assert(before(m, m.leaves[i], m.leaves[x]));
        } else {
            assert(before(m, m.leaves[x], m.leaves[i]));
        }
        let q = m.leaves[i];
        if q == nx {
            reveal(leaf_inv);
            assert(leaf_inv(img, m, q));
            page::lemma_same_body(true, img[q], img2[q]);
        }
    }
    lemma_leaf_bytes_change(img, img2, m.leaves, x);
    lemma_leaf_bytes_insert(img2, m.leaves, x + 1, r);
    assert forall|i: int| 0 <= i < m.leaves.len() implies page::page_ok(true, img[#[trigger] m.leaves[i]]) by {
        reveal(chain_inv);
        reveal(leaf_inv);
        assert(link_ok(img, m, i));
        assert(leaf_inv(img, m, m.leaves[i]));
    }
    lemma_leaf_bytes_bound(img, m.leaves);
    lemma_leaf_bytes_one(img, m.leaves, x);
}

/// The total is no less than what one of the leaves holds.
pub proof fn lemma_leaf_bytes_one(img: Seq<Seq<u8>>, ls: Seq<int>, x: int)
    requires
        0 <= x < ls.len(),
        forall|i: int| 0 <= i < ls.len() ==> page::page_ok(true, img[#[trigger] ls[i]]),
    ensures
        page::used(page::cells(true, img[ls[x]])) <= leaf_bytes(img, ls),
    decreases ls.len(),
{
    let d = ls.drop_last();
    assert forall|i: int| 0 <= i < d.len() implies page::page_ok(true, img[#[trigger] d[i]]) by {
        assert(d[i] == ls[i]);
    }
    if x == ls.len() - 1 {
        lemma_leaf_bytes_bound(img, d);
    } else {
        lemma_leaf_bytes_one(img, d, x);
        page::lemma_used_bound(page::cells(true, img[ls.last()]));
    }
}

/// Where a leaf stands in the chain.
pub open spec fn leaf_index(m: Model, p: int) -> int {
    choose|x: int| 0 <= x < m.leaves.len() && m.leaves[x] == p
}

pub proof fn lemma_leaf_index(img: Seq<Seq<u8>>, m: Model, p: int)
    requires
        chain_inv(img, m),
        is_leaf(m, p),
    ensures
        0 <= leaf_index(m, p) < m.leaves.len(),
        m.leaves[leaf_index(m, p)] == p,
{
    reveal(chain_inv);
    assert(m.leaves.contains(p));
}

/// The page that follows a leaf is a leaf.
pub proof fn lemma_next_leaf(img: Seq<Seq<u8>>, m: Model, p: int)
    requires
        chain_inv(img, m),
        is_leaf(m, p),
        next_of(img[p]) != 0,
    ensures
        is_leaf(m, next_of(img[p])),
        next_of(img[p]) != p,
{
    lemma_leaf_index(img, m, p);
    let x = leaf_index(m, p);
    reveal(chain_inv);
    assert(link_ok(img, m, x));
    if x + 1 < m.leaves.len() {
        assert(link_ok(img, m, x + 1));
        assert(before(m, m.leaves[x], m.leaves[x + 1]));
    }
}

/// The last leaf after a split.
pub proof fn lemma_split_last(img: Seq<Seq<u8>>, m: Model, p: int, r: int, x: int)
    requires
        chain_inv(img, m),
        0 <= x < m.leaves.len(),
        m.leaves[x] == p,
        is_leaf(m, p),
        bounds_inv(img, m, img.len() as int),
    ensures
        m.leaves.insert(x + 1, r).last() == (if next_of(img[p]) == 0 {
            r
        } else {
            m.leaves.last()
        }),
{
    reveal(chain_inv);
    assert(link_ok(img, m, x));
    let l2 = m.leaves.insert(x + 1, r);
    if x + 1 < m.leaves.len() {
        assert(link_ok(img, m, x + 1));
        assert(l2[l2.len() - 1] == m.leaves[m.leaves.len() - 1]);
    }
}

/// The children of an internal page are told apart by where their ranges start.
pub proof fn lemma_kids_distinct(img: Seq<Seq<u8>>, m: Model, pend: Option<(int, int)>, q: int, i: int, j: int)
    requires
        inner_inv(img, m, pend, q),
        0 <= i < j <= page::cells(false, img[q]).len(),
    ensures
        kid(img[q], i) != kid(img[q], j),
{
    reveal(inner_inv);
    lex::order_laws();
    let cs = page::cells(false, img[q]);
    let a = kid(img[q], i);
    let b = kid(img[q], j);
    assert(kid_ok(img, m, pend, q, i));
    assert(kid_ok(img, m, pend, q, j));
    assert(inside(page::key_of(false, cs[j - 1]), node(m, q).lo, node(m, q).hi));
    if i > 0 {
        assert(lex::lt(page::key_of(false, cs[i - 1]), page::key_of(false, cs[j - 1])));
    }
}

/// The cells of an internal page with one more separator, and its children in order.
pub open spec fn kids_in_order(m: Model, q: int, r: int, lm: int, order: Seq<Seq<u8>>) -> bool {
    &&& page::keys_sorted(false, order)
    &&& forall|j: int| 0 <= j < order.len() ==> page::cell_ok(false, #[trigger] order[j]) && page::key_of(
        false,
        order[j],
    ).len() <= MAX_KEY && inside(page::key_of(false, order[j]), node(m, q).lo, node(m, q).hi)
    &&& forall|j: int| 0 <= j <= order.len() ==> kid_in_order(m, q, r, lm, order, j, #[trigger] kid_of(lm, order, j))
    &&& forall|i: int, j: int|
        0 <= i < j <= order.len() ==> #[trigger] kid_of(lm, order, i) != #[trigger] kid_of(lm, order, j)
}

pub open spec fn kid_in_order(m: Model, q: int, r: int, lm: int, order: Seq<Seq<u8>>, j: int, x: int) -> bool {
    &&& is_tree(m, x)
    &&& node(m, x).level + 1 == node(m, q).level
    &&& node(m, x).lo == kid_lo(order, node(m, q), j)
    &&& node(m, x).hi == kid_hi(order, node(m, q), j)
    &&& x == r || node(m, x).parent == q
}

/// Putting the right half of a split child behind the left one keeps the children in order.
pub proof fn lemma_kids_in_order(
    img: Seq<Seq<u8>>,
    m: Model,
    l: int,
    r: int,
    q: int,
    i: int,
    c: Seq<u8>,
)
    requires
        inner_inv(img, m, Some((l, r)), q),
        pend_inv(m, Some((l, r))),
        is_inner(m, q),
        node(m, l).parent == q,
        0 <= i <= page::cells(false, img[q]).len(),
        kid(img[q], i) == l,
        page::cell_ok(false, c),
        Some(page::key_of(false, c)) == node(m, l).hi,
        page::child_of(c) == r,
    ensures
        kids_in_order(m, q, r, le::u64_at(img[q], 8) as int, page::cells(false, img[q]).insert(i, c)),
        forall|j: int| 0 <= j < i ==> lex::lt(sep(img[q], j), page::key_of(false, c)),
        forall|j: int|
            i <= j < page::cells(false, img[q]).len() ==> lex::lt(page::key_of(false, c), sep(img[q], j)),
{
    let pend = Some((l, r));
    let cs = page::cells(false, img[q]);
    let lm = le::u64_at(img[q], 8) as int;
    let order = cs.insert(i, c);
    let s = page::key_of(false, c);
    let nd = node(m, q);
    lex::order_laws();
    assert(kid_ok(img, m, pend, q, i)) by {
        reveal(inner_inv);
        assert(kid(img[q], i) == l);
    }
    assert(page::keys_sorted(false, cs)) by {
        reveal(inner_inv);
    }
    assert forall|j: int| 0 <= j < cs.len() implies inside(page::key_of(false, #[trigger] cs[j]), nd.lo, nd.hi)
        && page::key_of(false, cs[j]).len() <= MAX_KEY && page::cell_ok(false, cs[j]) by {
        reveal(inner_inv);
        page::lemma_page_cells(false, img[q]);
    }
    assert forall|j: int| 0 <= j < i implies lex::lt(page::key_of(false, #[trigger] cs[j]), s) by {
        if j < i - 1 {
            assert(lex::lt(page::key_of(false, cs[j]), page::key_of(false, cs[i - 1])));
        }
    }
    assert forall|j: int| i <= j < cs.len() implies lex::lt(s, page::key_of(false, #[trigger] cs[j])) by {
        if j > i {
            assert(lex::lt(page::key_of(false, cs[i]), page::key_of(false, cs[j])));
        }
    }
    lemma_sorted_insert(false, cs, i, c);
    assert(inside(s, nd.lo, nd.hi)) by {
        if i > 0 {
            assert(inside(page::key_of(false, cs[i - 1]), nd.lo, nd.hi));
        }
        if i < cs.len() {
            assert(inside(page::key_of(false, cs[i]), nd.lo, nd.hi));
        }
    }
    assert forall|j: int| 0 <= j <= order.len() implies kid_in_order(
        m,
        q,
        r,
        lm,
        order,
        j,
        #[trigger] kid_of(lm, order, j),
    ) by {
        let x = kid_of(lm, order, j);
        if j == i + 1 {
            assert(order[i] == c);
            assert(x == r);
            if i < cs.len() {
                assert(order[i + 1] == cs[i]);
            }
        } else {
            let o = if j <= i {
                j
            } else {
                j - 1
            };
            if j > 0 {
                assert(order[j - 1] == cs[o - 1]);
            }
            assert(x == kid(img[q], o));
            assert(kid_ok(img, m, pend, q, o)) by {
                reveal(inner_inv);
            }
            if o != i {
                if o < i {
                    lemma_kids_distinct(img, m, pend, q, o, i);
                } else {
                    lemma_kids_distinct(img, m, pend, q, i, o);
                }
                assert(x != l);
            }
            if j < order.len() {
                if j < i {
                    assert(order[j] == cs[j]);
                } else if j > i {
                    assert(order[j] == cs[j - 1]);
                } else {
                    assert(order[j] == c);
                }
            }
        }
    }
    assert forall|a: int, b: int| 0 <= a < b <= order.len() implies #[trigger] kid_of(lm, order, a)
        != #[trigger] kid_of(lm, order, b) by {
        assert(kid_in_order(m, q, r, lm, order, a, kid_of(lm, order, a)));
        assert(kid_in_order(m, q, r, lm, order, b, kid_of(lm, order, b)));
        if a > 0 {
            assert(lex::lt(page::key_of(false, order[a - 1]), page::key_of(false, order[b - 1])));
        }
        let z = if b - 1 == i {
            c
        } else {
            order[b - 1]
        };
        assert(inside(page::key_of(false, order[b - 1]), nd.lo, nd.hi)) by {
            if b - 1 < i {
                assert(order[b - 1] == cs[b - 1]);
            } else if b - 1 > i {
                assert(order[b - 1] == cs[b - 2]);
            }
        }
    }
    assert forall|j: int| 0 <= j < order.len() implies page::cell_ok(false, #[trigger] order[j]) && page::key_of(
        false,
        order[j],
    ).len() <= MAX_KEY && inside(page::key_of(false, order[j]), nd.lo, nd.hi) by {
        if j < i {
            assert(order[j] == cs[j]);
        } else if j > i {
            assert(order[j] == cs[j - 1]);
        } else {
            assert(order[j] == c);
        }
    }
}

/// The model once `r` got the parent `q`.
pub open spec fn placed_model(m: Model, q: int, r: int) -> Model {
    Model { kind: m.kind.insert(r, Kind::Tree(Node { parent: q, ..node(m, r) })), ..m }
}

/// The right half of a split child was put into its parent.
pub proof fn lemma_inner_insert(
    img: Seq<Seq<u8>>,
    m: Model,
    img2: Seq<Seq<u8>>,
    m2: Model,
    n: int,
    l: int,
    r: int,
    q: int,
    order: Seq<Seq<u8>>,
)
    requires
        inv(img, m, Some((l, r)), n),
        is_inner(m, q),
        node(m, l).parent == q,
        kids_in_order(m, q, r, le::u64_at(img[q], 8) as int, order),
        exists|j: int| 0 <= j <= order.len() && #[trigger] kid_of(le::u64_at(img[q], 8) as int, order, j) == r,
        bounds_inv(img2, m, n),
        forall|p: int| 0 < p < n && p != q ==> #[trigger] img2[p] == img[p],
        page::page_ok(false, img2[q]),
        img2[q][0] == page::PAGE_INTERNAL,
        le::u64_at(img2[q], 8) == le::u64_at(img[q], 8),
        page::cells(false, img2[q]) == order,
        m2 == placed_model(m, q, r),
    ensures
        inv(img2, m2, None, n),
        leaf_bytes(img2, m2.leaves) == leaf_bytes(img, m.leaves),
{
    let pend = Some((l, r));
    let lm = le::u64_at(img[q], 8) as int;
    assert(r != q);
    assert(bounds_inv(img2, m2, n));
    assert(extents_kept(img, m, img2, m2, None));
    assert forall|p: int| #[trigger] is_leaf(m2, p) implies leaf_inv(img2, m2, p) by {
        assert(is_leaf(m, p));
        lemma_leaf_frame(img, m, img2, m2, p, None);
    }
    assert forall|p: int| #[trigger] is_inner(m2, p) implies inner_inv(img2, m2, None, p) by {
        assert(is_inner(m, p));
        if p == q {
            reveal(inner_inv);
            assert forall|j: int| #![trigger kid(img2[q], j)] 0 <= j <= order.len() implies kid_ok(
                img2,
                m2,
                None,
                q,
                j,
            ) by {
                assert(kid(img2[q], j) == kid_of(lm, order, j));
                assert(kid_in_order(m, q, r, lm, order, j, kid_of(lm, order, j)));
            }
        } else {
            if p == r {
                lemma_r_frame(img, m, img2, m2, l, r, q);
            } else {
                assert forall|c: int| #[trigger] is_tree(m, c) && node(m, c).parent == p implies {
                    &&& is_tree(m2, c)
                    &&& node(m2, c).level == node(m, c).level
                    &&& node(m2, c).parent == p
                    &&& node(m2, c).lo == node(m, c).lo
                    &&& span_hi(m2, None, c) == span_hi(m, pend, c)
                } by {
                    assert(c != r);
                    assert(c != l);
                }
                lemma_inner_frame(img, m, pend, img2, m2, None, p);
            }
        }
    }
    assert forall|p: int| #[trigger] is_leaf(m, p) implies is_leaf(m2, p) && node(m2, p).lo == node(m, p).lo && node(
        m2,
        p,
    ).hi == node(m, p).hi && next_of(img2[p]) == next_of(img[p]) && prev_of(img2[p]) == prev_of(img[p]) by {}
    assert forall|p: int| #[trigger] is_leaf(m2, p) implies is_leaf(m, p) by {}
    lemma_chain_frame(img, m, img2, m2);
    assert(tops_inv(m2, None)) by {
        reveal(tops_inv);
        assert forall|i: int| 0 <= i < m2.tops.len() implies #[trigger] top_ok(m2, None, i) by {
            assert(top_ok(m, pend, i));
            assert(m.tops[i] != r) by {
                assert(m.tops.contains(m.tops[i]));
            }
            assert(m.tops[i] != l);
            if i + 1 < m.tops.len() {
                assert(top_ok(m, pend, i + 1));
                assert(m.tops[i + 1] != r) by {
                    assert(m.tops.contains(m.tops[i + 1]));
                }
            }
        }
    }
    lemma_free_frame(img, m, img2, m2);
    lemma_leaf_bytes_same(img, m, img2);
}

/// The right half keeps its own children when it gets a parent.
proof fn lemma_r_frame(img: Seq<Seq<u8>>, m: Model, img2: Seq<Seq<u8>>, m2: Model, l: int, r: int, q: int)
    requires
        inner_inv(img, m, Some((l, r)), r),
        is_inner(m, r),
        pend_inv(m, Some((l, r))),
        node(m, l).parent == q,
        is_inner(m, q),
        r != q,
        img2[r] == img[r],
        m2 == placed_model(m, q, r),
    ensures
        inner_inv(img2, m2, None, r),
{
    reveal(inner_inv);
    let pend = Some((l, r));
    let cs = page::cells(false, img[r]);
    assert forall|j: int| #![trigger kid(img2[r], j)] 0 <= j <= cs.len() implies kid_ok(img2, m2, None, r, j) by {
        assert(kid(img[r], j) == kid(img2[r], j));
        assert(kid_ok(img, m, pend, r, j));
        let x = kid(img[r], j);
        assert(x != r);
        assert(x != l);
    }
}

/// Leaves that are not touched hold as much as before.
pub proof fn lemma_leaf_bytes_same(img: Seq<Seq<u8>>, m: Model, img2: Seq<Seq<u8>>)
    requires
        chain_inv(img, m),
        forall|p: int| #[trigger] is_leaf(m, p) ==> img2[p] == img[p],
    ensures
        leaf_bytes(img2, m.leaves) == leaf_bytes(img, m.leaves),
{
    assert forall|i: int| 0 <= i < m.leaves.len() implies page::cells(true, img2[#[trigger] m.leaves[i]])
        == page::cells(true, img[m.leaves[i]]) by {
        reveal(chain_inv);
        assert(link_ok(img, m, i));
    }
    lemma_leaf_bytes_frame(img, img2, m.leaves);
}

/// `x` is one of the children from `from` on.
pub open spec fn kid_from(lm: int, order: Seq<Seq<u8>>, from: int, x: int) -> bool {
    exists|j: int| from <= j <= order.len() && #[trigger] kid_of(lm, order, j) == x
}

/// The model after the internal page `q` was split at cell `mid` of `order` into itself and
/// `w`; `r` is the child that made it overflow.
pub open spec fn inner_split_model(m: Model, q: int, w: int, r: int, lm: int, order: Seq<Seq<u8>>, mid: int) -> Model {
    let nd = node(m, q);
    let s = page::key_of(false, order[mid]);
    Model {
        kind: Map::new(
            |x: int| m.kind.contains_key(x) || x == w,
            |x: int|
                if x == w {
                    Kind::Tree(Node { level: nd.level, lo: Some(s), hi: nd.hi, parent: 0 })
                } else if x == q {
                    Kind::Tree(Node { hi: Some(s), ..nd })
                } else if is_tree(m, x) && kid_from(lm, order, mid + 1, x) {
                    Kind::Tree(Node { parent: w, ..node(m, x) })
                } else if is_tree(m, x) && x == r {
                    Kind::Tree(Node { parent: q, ..node(m, x) })
                } else {
                    m.kind[x]
                },
        ),
        ..m
    }
}

/// What the split of an internal page leaves of the pages.
pub open spec fn inner_split_pages(
    img: Seq<Seq<u8>>,
    img2: Seq<Seq<u8>>,
    n: int,
    q: int,
    w: int,
    order: Seq<Seq<u8>>,
    mid: int,
) -> bool {
    &&& forall|p: int| 0 < p < n && p != q && p != w ==> #[trigger] img2[p] == img[p]
    &&& page::page_ok(false, img2[q])
    &&& page::page_ok(false, img2[w])
    &&& img2[q][0] == page::PAGE_INTERNAL
    &&& img2[w][0] == page::PAGE_INTERNAL
    &&& le::u64_at(img2[q], 8) == le::u64_at(img[q], 8)
    &&& le::u64_at(img2[w], 8) == page::child_of(order[mid])
    &&& page::cells(false, img2[q]) == order.take(mid)
    &&& page::cells(false, img2[w]) == order.skip(mid + 1)
}

/// The left half of a split internal page.
proof fn lemma_inner_split_left(
    img: Seq<Seq<u8>>,
    m: Model,
    img2: Seq<Seq<u8>>,
    m2: Model,
    n: int,
    r: int,
    q: int,
    w: int,
    order: Seq<Seq<u8>>,
    mid: int,
)
    requires
        is_inner(m, q),
        !m.kind.contains_key(w),
        q != w,
        kids_in_order(m, q, r, le::u64_at(img[q], 8) as int, order),
        0 <= mid < order.len(),
        inner_split_pages(img, img2, n, q, w, order, mid),
        m2 == inner_split_model(m, q, w, r, le::u64_at(img[q], 8) as int, order, mid),
    ensures
        inner_inv(img2, m2, Some((q, w)), q),
{
    reveal(inner_inv);
    lex::order_laws();
    let lm = le::u64_at(img[q], 8) as int;
    let pend = Some((q, w));
    let a = order.take(mid);
    assert forall|j: int| 0 <= j < a.len() implies page::key_of(false, #[trigger] a[j]).len() <= MAX_KEY && inside(
        page::key_of(false, a[j]),
        node(m2, q).lo,
        node(m2, q).hi,
    ) by {
        assert(a[j] == order[j]);
        assert(page::cell_ok(false, order[j]));
        assert(lex::lt(page::key_of(false, order[j]), page::key_of(false, order[mid])));
    }
    assert(page::keys_sorted(false, a)) by {
        assert forall|i: int, j: int| 0 <= i < j < a.len() implies lex::lt(
            page::key_of(false, #[trigger] a[i]),
            page::key_of(false, #[trigger] a[j]),
        ) by {
            assert(a[i] == order[i] && a[j] == order[j]);
        }
    }
    assert forall|j: int| #![trigger kid(img2[q], j)] 0 <= j <= a.len() implies kid_ok(img2, m2, pend, q, j) by {
        let x = kid(img2[q], j);
        if j > 0 {
            assert(a[j - 1] == order[j - 1]);
        }
        assert(x == kid_of(lm, order, j));
        assert(kid_in_order(m, q, r, lm, order, j, x));
        if kid_from(lm, order, mid + 1, x) {
            let t = choose|t: int| mid + 1 <= t <= order.len() && #[trigger] kid_of(lm, order, t) == x;
            assert(kid_of(lm, order, j) != kid_of(lm, order, t));
        }
        assert(x != q && x != w);
        if j < a.len() {
            assert(a[j] == order[j]);
        }
    }
}

/// The right half of a split internal page.
proof fn lemma_inner_split_right(
    img: Seq<Seq<u8>>,
    m: Model,
    img2: Seq<Seq<u8>>,
    m2: Model,
    n: int,
    r: int,
    q: int,
    w: int,
    order: Seq<Seq<u8>>,
    mid: int,
)
    requires
        is_inner(m, q),
        !m.kind.contains_key(w),
        q != w,
        kids_in_order(m, q, r, le::u64_at(img[q], 8) as int, order),
        0 <= mid < order.len(),
        inner_split_pages(img, img2, n, q, w, order, mid),
        m2 == inner_split_model(m, q, w, r, le::u64_at(img[q], 8) as int, order, mid),
    ensures
        inner_inv(img2, m2, Some((q, w)), w),
{
    reveal(inner_inv);
    lex::order_laws();
    let lm = le::u64_at(img[q], 8) as int;
    let pend = Some((q, w));
    let b = order.skip(mid + 1);
    assert forall|j: int| 0 <= j < b.len() implies page::key_of(false, #[trigger] b[j]).len() <= MAX_KEY && inside(
        page::key_of(false, b[j]),
        node(m2, w).lo,
        node(m2, w).hi,
    ) by {
        assert(b[j] == order[mid + 1 + j]);
        assert(page::cell_ok(false, order[mid + 1 + j]));
        assert(lex::lt(page::key_of(false, order[mid]), page::key_of(false, order[mid + 1 + j])));
    }
    assert(page::keys_sorted(false, b)) by {
        assert forall|i: int, j: int| 0 <= i < j < b.len() implies lex::lt(
            page::key_of(false, #[trigger] b[i]),
            page::key_of(false, #[trigger] b[j]),
        ) by {
            assert(b[i] == order[mid + 1 + i] && b[j] == order[mid + 1 + j]);
        }
    }
    assert forall|j: int| #![trigger kid(img2[w], j)] 0 <= j <= b.len() implies kid_ok(img2, m2, pend, w, j) by {
        let x = kid(img2[w], j);
        let t = mid + 1 + j;
        if j > 0 {
            assert(b[j - 1] == order[t - 1]);
        }
        assert(x == kid_of(lm, order, t));
        assert(kid_in_order(m, q, r, lm, order, t, x));
        assert(kid_from(lm, order, mid + 1, x));
        assert(x != q && x != w);
        if j < b.len() {
            assert(b[j] == order[t]);
        }
    }
}

/// An internal page was split; its right half waits for its parent.
pub proof fn lemma_inner_split(
    img: Seq<Seq<u8>>,
    m: Model,
    img2: Seq<Seq<u8>>,
    m2: Model,
    n: int,
    l: int,
    r: int,
    q: int,
    w: int,
    order: Seq<Seq<u8>>,
    mid: int,
)
    requires
        inv(img, m, Some((l, r)), n),
        is_inner(m, q),
        node(m, l).parent == q,
        !m.kind.contains_key(w),
        1 <= w < n,
        kids_in_order(m, q, r, le::u64_at(img[q], 8) as int, order),
        kid_from(le::u64_at(img[q], 8) as int, order, 0, r),
        0 <= mid < order.len(),
        bounds_inv(img2, m, n),
        inner_split_pages(img, img2, n, q, w, order, mid),
        m2 == inner_split_model(m, q, w, r, le::u64_at(img[q], 8) as int, order, mid),
    ensures
        inv(img2, m2, Some((q, w)), n),
        leaf_bytes(img2, m2.leaves) == leaf_bytes(img, m.leaves),
{
    let pend = Some((l, r));
    let pend2 = Some((q, w));
    let lm = le::u64_at(img[q], 8) as int;
    assert(q != w);
    assert forall|x: int| #[trigger] kid_from(lm, order, mid + 1, x) implies is_tree(m, x) && x != q && (x == r || node(
        m,
        x,
    ).parent == q) && node(m, x).level + 1 == node(m, q).level by {
        let j = choose|j: int| mid + 1 <= j <= order.len() && #[trigger] kid_of(lm, order, j) == x;
        assert(kid_in_order(m, q, r, lm, order, j, x));
    }
    assert(node(m, r).level + 1 == node(m, q).level) by {
        let j = choose|j: int| 0 <= j <= order.len() && #[trigger] kid_of(lm, order, j) == r;
        assert(kid_in_order(m, q, r, lm, order, j, r));
    }
    assert forall|x: int| #[trigger] is_tree(m, x) implies is_tree(m2, x) && node(m2, x).level == node(m, x).level
        && node(m2, x).lo == node(m, x).lo && (x != q ==> node(m2, x).hi == node(m, x).hi) by {}
    assert forall|x: int| #[trigger] is_tree(m2, x) implies x == w || is_tree(m, x) by {}
    assert(bounds_inv(img2, m2, n));
    assert(extents_kept(img, m, img2, m2, None));
    assert forall|p: int| #[trigger] is_leaf(m2, p) implies leaf_inv(img2, m2, p) by {
        assert(is_tree(m2, p));
        assert(is_tree(m, p));
        assert(is_leaf(m, p));
        lemma_leaf_frame(img, m, img2, m2, p, None);
    }
    lemma_inner_split_left(img, m, img2, m2, n, r, q, w, order, mid);
    lemma_inner_split_right(img, m, img2, m2, n, r, q, w, order, mid);
    assert forall|p: int| #[trigger] is_inner(m2, p) implies inner_inv(img2, m2, pend2, p) by {
        if p != q && p != w {
            assert(is_tree(m2, p));
            assert(is_tree(m, p));
            assert(is_inner(m, p));
            lemma_inner_split_frame(img, m, img2, m2, n, l, r, q, w, order, mid, p);
        }
    }
    assert forall|p: int| #[trigger] is_leaf(m, p) implies is_leaf(m2, p) && node(m2, p).lo == node(m, p).lo && node(
        m2,
        p,
    ).hi == node(m, p).hi && img2[p] == img[p] by {
        assert(is_tree(m, p));
    }
    assert forall|p: int| #[trigger] is_leaf(m2, p) implies is_leaf(m, p) by {
        assert(is_tree(m2, p));
        assert(is_tree(m, p));
    }
    lemma_chain_frame(img, m, img2, m2);
    assert(tops_inv(m2, pend2) && !m2.tops.contains(w)) by {
        reveal(tops_inv);
        assert forall|i: int| 0 <= i < m2.tops.len() implies #[trigger] top_ok(m2, pend2, i) by {
            assert(top_ok(m, pend, i));
            let t = m.tops[i];
            assert(t != r) by {
                assert(m.tops.contains(t));
            }
            assert(is_tree(m, t));
            assert(t != l);
            if kid_from(lm, order, mid + 1, t) {
            }
            if i + 1 < m.tops.len() {
                assert(top_ok(m, pend, i + 1));
                assert(is_tree(m, m.tops[i + 1]));
            }
        }
        if m2.tops.contains(w) {
            let i = choose|i: int| 0 <= i < m.tops.len() && m.tops[i] == w;
            assert(top_ok(m, pend, i));
        }
    }
    assert(pend_inv(m2, pend2)) by {
        assert(page::cell_ok(false, order[mid]));
        assert(is_tree(m, q));
        assert(is_tree(m2, q));
        assert(is_tree(m2, w));
    }
    lemma_free_frame(img, m, img2, m2);
    lemma_leaf_bytes_same(img, m, img2);
}

/// Internal pages other than the one that was split.
proof fn lemma_inner_split_frame(
    img: Seq<Seq<u8>>,
    m: Model,
    img2: Seq<Seq<u8>>,
    m2: Model,
    n: int,
    l: int,
    r: int,
    q: int,
    w: int,
    order: Seq<Seq<u8>>,
    mid: int,
    p: int,
)
    requires
        inner_inv(img, m, Some((l, r)), p),
        pend_inv(m, Some((l, r))),
        is_inner(m, p),
        is_inner(m, q),
        p != 0,
        p != q,
        p != w,
        node(m, l).parent == q,
        !m.kind.contains_key(w),
        img2[p] == img[p],
        kids_in_order(m, q, r, le::u64_at(img[q], 8) as int, order),
        0 <= mid < order.len(),
        m2 == inner_split_model(m, q, w, r, le::u64_at(img[q], 8) as int, order, mid),
    ensures
        inner_inv(img2, m2, Some((q, w)), p),
{
    reveal(inner_inv);
    let pend = Some((l, r));
    let pend2 = Some((q, w));
    let lm = le::u64_at(img[q], 8) as int;
    let cs = page::cells(false, img[p]);
    assert(node(m2, p).lo == node(m, p).lo && node(m2, p).hi == node(m, p).hi && node(m2, p).level == node(m, p).level);
    assert forall|j: int| #![trigger kid(img2[p], j)] 0 <= j <= cs.len() implies kid_ok(img2, m2, pend2, p, j) by {
        assert(kid(img[p], j) == kid(img2[p], j));
        assert(kid_ok(img, m, pend, p, j));
        let x = kid(img[p], j);
        assert(x != r && x != l && x != w);
        if kid_from(lm, order, mid + 1, x) {
            let t = choose|t: int| mid + 1 <= t <= order.len() && #[trigger] kid_of(lm, order, t) == x;
            assert(kid_in_order(m, q, r, lm, order, t, x));
        }
    }
}

/// A split of the last topmost page leaves one more of them.
pub proof fn lemma_pend_to_tops(img: Seq<Seq<u8>>, m: Model, n: int, l: int, r: int)
    requires
        inv(img, m, Some((l, r)), n),
        m.tops.last() == l,
    ensures
        inv(img, (Model { tops: m.tops.push(r), ..m }), None, n),
{
    let m2 = Model { tops: m.tops.push(r), ..m };
    let pend = Some((l, r));
    let len = m.tops.len() as int;
    reveal(tops_inv);
    assert(top_ok(m, pend, len - 1));
    assert forall|p: int| #[trigger] is_leaf(m2, p) implies leaf_inv(img, m2, p) by {
        assert(is_leaf(m, p));
        lemma_leaf_frame(img, m, img, m2, p, None);
    }
    assert forall|p: int| #[trigger] is_inner(m2, p) implies inner_inv(img, m2, None, p) by {
        assert(is_inner(m, p));
        lemma_inner_frame(img, m, pend, img, m2, None, p);
    }
    lemma_chain_frame(img, m, img, m2);
    lemma_free_frame(img, m, img, m2);
    assert forall|i: int| 0 <= i < m2.tops.len() implies #[trigger] top_ok(m2, None, i) by {
        if i < len {
            assert(top_ok(m, pend, i));
            if i < len - 1 {
                assert(m.tops[i] != m.tops[len - 1]);
            }
        }
    }
    assert forall|i: int, j: int| 0 <= i < j < m2.tops.len() implies #[trigger] m2.tops[i] != #[trigger] m2.tops[j] by {
        if j == len {
            assert(m.tops.contains(m.tops[i]));
        } else {
            assert(m.tops[i] != m.tops[j]);
        }
    }
}

/// The model after topmost page `j` was put under a new page `w`.
pub open spec fn wrap_model(m: Model, j: int, w: int) -> Model {
    let c = m.tops[j];
    let nd = node(m, c);
    Model {
        kind: m.kind.insert(c, Kind::Tree(Node { parent: w, ..nd })).insert(
            w,
            Kind::Tree(Node { level: nd.level + 1, lo: nd.lo, hi: nd.hi, parent: 0 }),
        ),
        tops: m.tops.update(j, w),
        ..m
    }
}

/// A new internal page over topmost page `j`.
pub proof fn lemma_wrap(img: Seq<Seq<u8>>, m: Model, img2: Seq<Seq<u8>>, m2: Model, n: int, j: int, w: int)
    requires
        inv(img, m, None, n),
        0 <= j < m.tops.len(),
        !m.kind.contains_key(w),
        1 <= w < n,
        bounds_inv(img2, m, n),
        forall|p: int| 0 < p < n && p != w ==> #[trigger] img2[p] == img[p],
        page::page_ok(false, img2[w]),
        img2[w][0] == page::PAGE_INTERNAL,
        le::u64_at(img2[w], 8) == m.tops[j],
        page::cells(false, img2[w]).len() == 0,
        m2 == wrap_model(m, j, w),
    ensures
        inv(img2, m2, None, n),
        leaf_bytes(img2, m2.leaves) == leaf_bytes(img, m.leaves),
{
    let c = m.tops[j];
    assert(top_ok(m, None, j)) by {
        reveal(tops_inv);
    }
    assert(bounds_inv(img2, m2, n));
    assert(extents_kept(img, m, img2, m2, None));
    assert forall|p: int| #[trigger] is_leaf(m2, p) implies leaf_inv(img2, m2, p) by {
        assert(is_leaf(m, p));
        lemma_leaf_frame(img, m, img2, m2, p, None);
    }
    assert forall|p: int| #[trigger] is_inner(m2, p) implies inner_inv(img2, m2, None, p) by {
        if p == w {
            reveal(inner_inv);
            assert forall|i: int| #![trigger kid(img2[w], i)] 0 <= i <= 0 implies kid_ok(img2, m2, None, w, i) by {}
        } else {
            assert(is_inner(m, p));
            lemma_parent_change(img, m, img2, m2, p, c, w);
        }
    }
    assert forall|p: int| #[trigger] is_leaf(m, p) implies is_leaf(m2, p) && node(m2, p).lo == node(m, p).lo && node(
        m2,
        p,
    ).hi == node(m, p).hi && img2[p] == img[p] by {}
    assert forall|p: int| #[trigger] is_leaf(m2, p) implies is_leaf(m, p) by {}
    lemma_chain_frame(img, m, img2, m2);
    assert(tops_inv(m2, None)) by {
        reveal(tops_inv);
        assert forall|i: int| 0 <= i < m2.tops.len() implies #[trigger] top_ok(m2, None, i) by {
            assert(top_ok(m, None, i));
            if i != j {
                assert(m.tops[i] != c) by {
                    if i < j {
                        assert(m.tops[i] != m.tops[j]);
                    } else {
                        assert(m.tops[j] != m.tops[i]);
                    }
                }
            }
            if i + 1 < m.tops.len() {
                assert(top_ok(m, None, i + 1));
            }
        }
        assert forall|a: int, b: int| 0 <= a < b < m2.tops.len() implies #[trigger] m2.tops[a]
            != #[trigger] m2.tops[b] by {
            assert(top_ok(m, None, a));
            assert(top_ok(m, None, b));
            assert(m.tops[a] != m.tops[b]);
        }
    }
    lemma_free_frame(img, m, img2, m2);
    lemma_leaf_bytes_same(img, m, img2);
}

/// Internal pages stay well formed when a page without a parent gets one.
proof fn lemma_parent_change(img: Seq<Seq<u8>>, m: Model, img2: Seq<Seq<u8>>, m2: Model, p: int, c: int, w: int)
    requires
        inner_inv(img, m, None, p),
        is_inner(m, p),
        is_tree(m, c),
        node(m, c).parent == 0,
        p != 0,
        p != w,
        img2[p] == img[p],
        node(m2, p).level == node(m, p).level,
        node(m2, p).lo == node(m, p).lo,
        node(m2, p).hi == node(m, p).hi,
        forall|x: int| #[trigger] is_tree(m, x) && x != c && node(m, x).parent == p ==> is_tree(m2, x) && m2.kind[x]
            == m.kind[x],
    ensures
        inner_inv(img2, m2, None, p),
{
    reveal(inner_inv);
    let cs = page::cells(false, img[p]);
    assert forall|i: int| #![trigger kid(img2[p], i)] 0 <= i <= cs.len() implies kid_ok(img2, m2, None, p, i) by {
        assert(kid(img[p], i) == kid(img2[p], i));
        assert(kid_ok(img, m, None, p, i));
        assert(is_tree(m, kid(img[p], i)));
    }
}

/// The model after topmost page `j` took in its right neighbour.
pub open spec fn adopt_model(m: Model, j: int) -> Model {
    let w = m.tops[j];
    let c = m.tops[j + 1];
    Model {
        kind: m.kind.insert(w, Kind::Tree(Node { hi: node(m, c).hi, ..node(m, w) })).insert(
            c,
            Kind::Tree(Node { parent: w, ..node(m, c) }),
        ),
        tops: m.tops.remove(j + 1),
        ..m
    }
}

/// Topmost page `j` takes in its right neighbour as its last child.
pub proof fn lemma_adopt(img: Seq<Seq<u8>>, m: Model, img2: Seq<Seq<u8>>, m2: Model, n: int, j: int, cell: Seq<u8>)
    requires
        inv(img, m, None, n),
        0 <= j < m.tops.len() - 1,
        is_inner(m, m.tops[j]),
        node(m, m.tops[j + 1]).level + 1 == node(m, m.tops[j]).level,
        page::cell_ok(false, cell),
        Some(page::key_of(false, cell)) == node(m, m.tops[j + 1]).lo,
        page::child_of(cell) == m.tops[j + 1],
        page::key_of(false, cell).len() <= MAX_KEY,
        inside(page::key_of(false, cell), node(m, m.tops[j]).lo, node(m, m.tops[j + 1]).hi),
        page::cells(false, img[m.tops[j]]).len() > 0 ==> lex::lt(
            page::key_of(false, page::cells(false, img[m.tops[j]]).last()),
            page::key_of(false, cell),
        ),
        bounds_inv(img2, m, n),
        forall|p: int| 0 < p < n && p != m.tops[j] ==> #[trigger] img2[p] == img[p],
        page::page_ok(false, img2[m.tops[j]]),
        img2[m.tops[j]][0] == page::PAGE_INTERNAL,
        le::u64_at(img2[m.tops[j]], 8) == le::u64_at(img[m.tops[j]], 8),
        page::cells(false, img2[m.tops[j]]) == page::cells(false, img[m.tops[j]]).push(cell),
        m2 == adopt_model(m, j),
    ensures
        inv(img2, m2, None, n),
        leaf_bytes(img2, m2.leaves) == leaf_bytes(img, m.leaves),
{
    let w = m.tops[j];
    let c = m.tops[j + 1];
    assert(top_ok(m, None, j) && top_ok(m, None, j + 1) && w != c) by {
        reveal(tops_inv);
        assert(m.tops[j] != m.tops[j + 1]);
    }
    assert(bounds_inv(img2, m2, n));
    assert(extents_kept(img, m, img2, m2, None));
    assert forall|p: int| #[trigger] is_leaf(m2, p) implies leaf_inv(img2, m2, p) by {
        assert(is_leaf(m, p));
        lemma_leaf_frame(img, m, img2, m2, p, None);
    }
    lemma_adopt_page(img, m, img2, m2, j, cell);
    assert forall|p: int| #[trigger] is_inner(m2, p) implies inner_inv(img2, m2, None, p) by {
        if p != w {
            assert(is_inner(m, p));
            assert forall|x: int| #[trigger] is_tree(m, x) && x != c && node(m, x).parent == p implies is_tree(m2, x)
                && m2.kind[x] == m.kind[x] by {}
            lemma_parent_change(img, m, img2, m2, p, c, w);
        }
    }
    assert forall|p: int| #[trigger] is_leaf(m, p) implies is_leaf(m2, p) && node(m2, p).lo == node(m, p).lo && node(
        m2,
        p,
    ).hi == node(m, p).hi && img2[p] == img[p] by {}
    assert forall|p: int| #[trigger] is_leaf(m2, p) implies is_leaf(m, p) by {}
    lemma_chain_frame(img, m, img2, m2);
    assert(tops_inv(m2, None)) by {
        reveal(tops_inv);
        let old_of = |i: int| if i <= j { i } else { i + 1 };
        assert forall|i: int| 0 <= i < m2.tops.len() implies #[trigger] m2.tops[i] == m.tops[old_of(i)] by {}
        assert forall|i: int| 0 <= i < m2.tops.len() implies #[trigger] top_ok(m2, None, i) by {
            let o = old_of(i);
            assert(m2.tops[i] == m.tops[o]);
            assert(top_ok(m, None, o));
            if o != j && o != j + 1 {
                assert(m.tops[o] != w && m.tops[o] != c) by {
                    if o < j {
                        assert(m.tops[o] != m.tops[j]);
                        assert(m.tops[o] != m.tops[j + 1]);
                    } else {
                        assert(m.tops[j] != m.tops[o]);
                        assert(m.tops[j + 1] != m.tops[o]);
                    }
                }
            }
            if i + 1 < m2.tops.len() {
                assert(m2.tops[i + 1] == m.tops[old_of(i + 1)]);
                assert(top_ok(m, None, old_of(i + 1)));
                if old_of(i + 1) > j + 1 {
                    assert(m.tops[j + 1] != m.tops[old_of(i + 1)]);
                    assert(m.tops[j] != m.tops[old_of(i + 1)]);
                } else {
                    assert(m.tops[old_of(i + 1)] != m.tops[j + 1]);
                }
            }
        }
        assert forall|a: int, b: int| 0 <= a < b < m2.tops.len() implies #[trigger] m2.tops[a]
            != #[trigger] m2.tops[b] by {
            assert(m2.tops[a] == m.tops[old_of(a)] && m2.tops[b] == m.tops[old_of(b)]);
            assert(m.tops[old_of(a)] != m.tops[old_of(b)]);
        }
    }
    lemma_free_frame(img, m, img2, m2);
    lemma_leaf_bytes_same(img, m, img2);
}

/// The page that took in a child.
proof fn lemma_adopt_page(img: Seq<Seq<u8>>, m: Model, img2: Seq<Seq<u8>>, m2: Model, j: int, cell: Seq<u8>)
    requires
        0 <= j < m.tops.len() - 1,
        is_inner(m, m.tops[j]),
        is_tree(m, m.tops[j + 1]),
        inner_inv(img, m, None, m.tops[j]),
        m.tops[j] != m.tops[j + 1],
        m.tops[j] != 0,
        node(m, m.tops[j + 1]).parent == 0,
        node(m, m.tops[j + 1]).level + 1 == node(m, m.tops[j]).level,
        node(m, m.tops[j]).hi == node(m, m.tops[j + 1]).lo,
        Some(page::key_of(false, cell)) == node(m, m.tops[j + 1]).lo,
        page::child_of(cell) == m.tops[j + 1],
        page::key_of(false, cell).len() <= MAX_KEY,
        inside(page::key_of(false, cell), node(m, m.tops[j]).lo, node(m, m.tops[j + 1]).hi),
        page::cells(false, img[m.tops[j]]).len() > 0 ==> lex::lt(
            page::key_of(false, page::cells(false, img[m.tops[j]]).last()),
            page::key_of(false, cell),
        ),
        page::page_ok(false, img2[m.tops[j]]),
        img2[m.tops[j]][0] == page::PAGE_INTERNAL,
        le::u64_at(img2[m.tops[j]], 8) == le::u64_at(img[m.tops[j]], 8),
        page::cells(false, img2[m.tops[j]]) == page::cells(false, img[m.tops[j]]).push(cell),
        m2 == adopt_model(m, j),
    ensures
        inner_inv(img2, m2, None, m.tops[j]),
{
    reveal(inner_inv);
    lex::order_laws();
    let w = m.tops[j];
    let c = m.tops[j + 1];
    let cs = page::cells(false, img[w]);
    let cs2 = cs.push(cell);
    let s = page::key_of(false, cell);
    assert forall|i: int| 0 <= i < cs.len() implies lex::lt(page::key_of(false, #[trigger] cs[i]), s) by {
        if i < cs.len() - 1 {
            assert(lex::lt(page::key_of(false, cs[i]), page::key_of(false, cs[cs.len() - 1])));
        }
    }
    assert(cs2 =~= cs.insert(cs.len() as int, cell));
    lemma_sorted_insert(false, cs, cs.len() as int, cell);
    assert forall|i: int| 0 <= i < cs2.len() implies inside(
        page::key_of(false, #[trigger] cs2[i]),
        node(m2, w).lo,
        node(m2, w).hi,
    ) && page::key_of(false, cs2[i]).len() <= MAX_KEY by {
        if i < cs.len() {
            assert(cs2[i] == cs[i]);
            assert(lex::lt(page::key_of(false, cs[i]), s));
        }
    }
    assert forall|i: int| #![trigger kid(img2[w], i)] 0 <= i <= cs2.len() implies kid_ok(img2, m2, None, w, i) by {
        let x = kid(img2[w], i);
        if i == cs2.len() {
            assert(cs2[i - 1] == cell);
        } else {
            if i > 0 {
                assert(cs2[i - 1] == cs[i - 1]);
            }
            assert(x == kid(img[w], i));
            assert(kid_ok(img, m, None, w, i));
            assert(x != c && x != w);
            if i < cs.len() {
                assert(cs2[i] == cs[i]);
            }
        }
    }
}

/// A byte of a page header that nothing depends on.
pub proof fn lemma_flag_page(leaf: bool, a: Seq<u8>, v: u8)
    requires
        page::page_ok(leaf, a),
    ensures
        page::page_ok(leaf, a.update(1, v)),
        page::cells(leaf, a.update(1, v)) == page::cells(leaf, a),
        a.update(1, v)[0] == a[0],
        a.update(1, v).len() == a.len(),
        le::u64_at(a.update(1, v), 8) == le::u64_at(a, 8),
        le::u64_at(a.update(1, v), 16) == le::u64_at(a, 16),
{
    let b = a.update(1, v);
    page::lemma_page_cells(leaf, a);
    page::lemma_same_body(leaf, a, b);
    le::lemma_u64_same(a, b, 8, 8);
    le::lemma_u64_same(a, b, 16, 16);
}

/// Marking a tree page as the root, or not, changes nothing else.
pub proof fn lemma_flag(img: Seq<Seq<u8>>, m: Model, img2: Seq<Seq<u8>>, n: int, p: int, v: u8)
    requires
        inv(img, m, None, n),
        is_tree(m, p),
        img2.len() == img.len(),
        forall|q: int| 0 <= q < img.len() && q != p ==> #[trigger] img2[q] == img[q],
        img2[p] == img[p].update(1, v),
    ensures
        inv(img2, m, None, n),
        leaf_bytes(img2, m.leaves) == leaf_bytes(img, m.leaves),
        is_leaf(m, p) ==> page::cells(true, img2[p]) == page::cells(true, img[p]),
        is_inner(m, p) ==> page::cells(false, img2[p]) == page::cells(false, img[p]) && le::u64_at(img2[p], 8)
            == le::u64_at(img[p], 8),
{
    if is_leaf(m, p) {
        assert(page::page_ok(true, img[p])) by {
            reveal(leaf_inv);
            assert(leaf_inv(img, m, p));
        }
        lemma_flag_page(true, img[p], v);
    } else {
        assert(is_inner(m, p));
        assert(page::page_ok(false, img[p])) by {
            reveal(inner_inv);
            assert(inner_inv(img, m, None, p));
        }
        lemma_flag_page(false, img[p], v);
    }
    assert forall|q: int| #[trigger] is_leaf(m, q) implies leaf_inv(img2, m, q) by {
        lemma_leaf_frame(img, m, img2, m, q, None);
    }
    assert forall|q: int| #[trigger] is_inner(m, q) implies inner_inv(img2, m, None, q) by {
        lemma_inner_frame(img, m, None, img2, m, None, q);
    }
    lemma_chain_frame(img, m, img2, m);
    lemma_free_frame(img, m, img2, m);
    assert forall|i: int| 0 <= i < m.leaves.len() implies page::cells(true, img2[#[trigger] m.leaves[i]])
        == page::cells(true, img[m.leaves[i]]) by {
        reveal(chain_inv);
        assert(link_ok(img, m, i));
    }
    lemma_leaf_bytes_frame(img, img2, m.leaves);
}

/// A leaf whose entry of slot `i` got another value of the same length.
pub proof fn lemma_leaf_overwritten(
    img: Seq<Seq<u8>>,
    m: Model,
    img2: Seq<Seq<u8>>,
    m2: Model,
    p: int,
    i: int,
    c: Seq<u8>,
)
    requires
        leaf_inv(img, m, p),
        0 <= i < page::cells(true, img[p]).len(),
        page::key_of(true, c) == page::key_of(true, page::cells(true, img[p])[i]),
        page::raw_of(c) < page::OVFL_FLAG,
        page::raw_of(c) == page::raw_of(page::cells(true, img[p])[i]),
        page::page_ok(true, img2[p]),
        img2[p][0] == img[p][0],
        page::cells(true, img2[p]) == page::cells(true, img[p]).update(i, c),
        m2.kind == m.kind,
        m2.map == m.map.insert(page::key_of(true, c), page::payload_of(c)),
        forall|q: int| #[trigger] is_extent(m, q) ==> img2[q] == img[q],
    ensures
        leaf_inv(img2, m2, p),
{
    reveal(leaf_inv);
    lex::order_laws();
    let cs = page::cells(true, img[p]);
    let r = cs.update(i, c);
    let k0 = page::key_of(true, c);
    assert(entry_ok(img, m, node(m, p), cs[i]));
    assert(page::keys_sorted(true, r)) by {
        assert forall|a: int, b: int| 0 <= a < b < r.len() implies lex::lt(
            page::key_of(true, #[trigger] r[a]),
            page::key_of(true, #[trigger] r[b]),
        ) by {
            assert(lex::lt(page::key_of(true, cs[a]), page::key_of(true, cs[b])));
        }
    }
    assert forall|j: int| 0 <= j < r.len() implies entry_ok(img2, m2, node(m2, p), #[trigger] r[j]) by {
        if j != i {
            assert(r[j] == cs[j]);
            assert(entry_ok(img, m, node(m, p), cs[j]));
            if j < i {
                assert(lex::lt(page::key_of(true, cs[j]), page::key_of(true, cs[i])));
            } else {
                assert(lex::lt(page::key_of(true, cs[i]), page::key_of(true, cs[j])));
            }
            assert forall|q: int|
                #[trigger] m.kind.contains_key(q) && m.kind[q] == Kind::Extent(
                    page::key_of(true, cs[j]),
                ) implies m2.kind.contains_key(q) && m2.kind[q] == m.kind[q] && img2[q] == img[q] by {
                assert(is_extent(m, q));
            }
            lemma_value_kept(img, m, img2, m2, cs[j]);
        }
    }
    assert forall|k: Seq<u8>| #[trigger] m2.map.contains_key(k) && in_range(k, node(m2, p).lo, node(m2, p).hi) implies has_key(
        r,
        k,
    ) by {
        if k == k0 {
            assert(r[i] == c);
        } else {
            assert(m.map.contains_key(k));
            assert(has_key(cs, k));
            let j = choose|j: int| 0 <= j < cs.len() && page::key_of(true, #[trigger] cs[j]) == k;
            assert(r[j] == cs[j]);
        }
    }
}

/// An entry stays right when another key is set.
proof fn lemma_entry_kept(img: Seq<Seq<u8>>, m: Model, m2: Model, nd: Node, c: Seq<u8>, k0: Seq<u8>)
    requires
        entry_ok(img, m, nd, c),
        lex::lt(page::key_of(true, c), k0) || lex::lt(k0, page::key_of(true, c)),
        m2 == (Model { map: m.map.insert(k0, m2.map[k0]), ..m }),
    ensures
        entry_ok(img, m2, nd, c),
{
    lex::order_laws();
    assert(page::key_of(true, c) != k0);
}

/// The cells of a leaf with one more entry, as far as the map with that entry goes.
pub proof fn lemma_cover_inserted(img: Seq<Seq<u8>>, m: Model, m2: Model, p: int, pos: int, c: Seq<u8>)
    requires
        leaf_inv(img, m, p),
        slot_found(img[p], page::key_of(true, c), pos, false),
        in_range(page::key_of(true, c), node(m, p).lo, node(m, p).hi),
        page::key_of(true, c).len() <= MAX_KEY,
        page::cell_ok(true, c),
        m2 == (Model { map: m.map.insert(page::key_of(true, c), value_of(img, c)), ..m }),
        extent_owned(m, c),
        form_ok(c),
    ensures
        cells_cover(img, m2, node(m, p), page::cells(true, img[p]).insert(pos, c)),
{
    reveal(leaf_inv);
    lex::order_laws();
    page::lemma_page_cells(true, img[p]);
    let cs = page::cells(true, img[p]);
    let r = cs.insert(pos, c);
    let k0 = page::key_of(true, c);
    lemma_sorted_insert(true, cs, pos, c);
    assert forall|i: int| 0 <= i < r.len() implies page::cell_ok(true, #[trigger] r[i]) && entry_ok(
        img,
        m2,
        node(m, p),
        r[i],
    ) by {
        if i == pos {
            assert(r[i] == c);
        } else {
            let o = if i < pos {
                i
            } else {
                i - 1
            };
            assert(r[i] == cs[o]);
            assert(page::cell_ok(true, cs[o]));
            assert(entry_ok(img, m, node(m, p), cs[o]));
            lemma_entry_kept(img, m, m2, node(m, p), cs[o], k0);
        }
    }
    assert forall|k: Seq<u8>| #[trigger] m2.map.contains_key(k) && in_range(k, node(m, p).lo, node(m, p).hi) implies has_key(
        r,
        k,
    ) by {
        if k == k0 {
            assert(r[pos] == c);
        } else {
            assert(m.map.contains_key(k));
            assert(has_key(cs, k));
            let i = choose|i: int| 0 <= i < cs.len() && page::key_of(true, #[trigger] cs[i]) == k;
            if i < pos {
                assert(r[i] == cs[i]);
            } else {
                assert(r[i + 1] == cs[i]);
            }
        }
    }
}

/// The cells of a leaf cover what the map has in its range.
pub proof fn lemma_cover_same(img: Seq<Seq<u8>>, m: Model, p: int)
    requires
        leaf_inv(img, m, p),
    ensures
        cells_cover(img, m, node(m, p), page::cells(true, img[p])),
{
    reveal(leaf_inv);
    page::lemma_page_cells(true, img[p]);
}

/// A descent stays valid when the internal pages and the parents do not change.
pub proof fn lemma_path_frame(img: Seq<Seq<u8>>, m: Model, img2: Seq<Seq<u8>>, m2: Model, path: Seq<u64>, leaf: int)
    requires
        path_ok(img, m, path, leaf),
        m2.tops == m.tops,
        is_leaf(m, leaf),
        forall|q: int| #[trigger]
            is_tree(m, q) ==> is_tree(m2, q) && node(m2, q).level == node(m, q).level && node(m2, q).parent == node(
                m,
                q,
            ).parent,
        forall|q: int| #[trigger] is_inner(m, q) ==> img2[q] == img[q],
        is_tree(m, m.tops[0]),
    ensures
        path_ok(img2, m2, path, leaf),
{
    let n = path.len() as int;
    assert forall|i: int| 0 <= i < n implies is_tree(m, #[trigger] path[i] as int) && img2[path[i] as int]
        == img[path[i] as int] by {
        assert(is_inner(m, path[i] as int));
    }
    if n > 0 {
        assert(is_tree(m, path[n - 1] as int));
    }
    assert forall|i: int, j: int| 0 <= i && j == i + 1 && j < n implies node(m2, #[trigger] path[j] as int).parent
        == #[trigger] path[i] && listed(img2, path[i] as int, path[j] as int) by {
        assert(node(m, path[j] as int).parent == path[i]);
    }
}

/// Where a removed entry was is where its key belongs.
pub proof fn lemma_slot_removed(b: Seq<u8>, b2: Seq<u8>, key: Seq<u8>, at: int)
    requires
        slot_found(b, key, at, true),
        page::cells(true, b2) == page::cells(true, b).remove(at),
    ensures
        slot_found(b2, key, at, false),
{
    let cs = page::cells(true, b);
    let r = page::cells(true, b2);
    assert forall|i: int| 0 <= i < at implies lex::lt(page::key_of(true, #[trigger] r[i]), key) by {
        assert(r[i] == cs[i]);
    }
    assert forall|i: int| at <= i < r.len() implies lex::lt(key, page::key_of(true, #[trigger] r[i])) by {
        assert(r[i] == cs[i + 1]);
    }
}

/// A tree with one leaf that holds nothing.
pub open spec fn fresh_model() -> Model {
    Model {
        kind: Map::empty().insert(1, Kind::Tree(Node { level: 0, lo: None, hi: None, parent: 0 })),
        leaves: seq![1],
        free: Seq::empty(),
        tops: seq![1],
        map: Map::empty(),
    }
}

pub proof fn lemma_fresh(img: Seq<Seq<u8>>)
    requires
        img.len() >= 2,
        forall|i: int| 0 <= i < img.len() ==> (#[trigger] img[i]).len() == page::PAGE_SIZE,
        page::page_ok(true, img[1]),
        img[1][0] == page::PAGE_LEAF,
        page::cells(true, img[1]).len() == 0,
        next_of(img[1]) == 0,
        prev_of(img[1]) == 0,
    ensures
        inv(img, fresh_model(), None, 2),
        leaf_bytes(img, fresh_model().leaves) == 0,
{
    let m = fresh_model();
    reveal(leaf_inv);
    reveal(chain_inv);
    reveal(tops_inv);
    reveal(free_inv);
    assert(m.leaves.contains(1)) by {
        assert(m.leaves[0] == 1);
    }
    assert(link_ok(img, m, 0));
    assert(top_ok(m, None, 0));
    assert forall|i: int| 0 <= i < m.leaves.len() implies #[trigger] link_ok(img, m, i) by {}
    assert forall|i: int| 0 <= i < m.tops.len() implies #[trigger] top_ok(m, None, i) by {}
    assert(m.leaves.drop_last() =~= Seq::<int>::empty());
    assert(leaf_bytes(img, Seq::<int>::empty()) == 0);
    assert(page::used(page::cells(true, img[1])) == 0);
}

/// An empty leaf behind the last one, from `s` on.
pub proof fn lemma_tail_leaf(
    img: Seq<Seq<u8>>,
    m: Model,
    img2: Seq<Seq<u8>>,
    m2: Model,
    p: int,
    r: int,
    s: Seq<u8>,
)
    requires
        leaf_inv(img, m, p),
        node(m, p).hi is None,
        node(m, p).lo is Some ==> !lex::lt(s, node(m, p).lo->0),
        forall|i: int|
            0 <= i < page::cells(true, img[p]).len() ==> lex::lt(
                page::key_of(true, #[trigger] page::cells(true, img[p])[i]),
                s,
            ),
        m2.map == m.map,
        extents_kept(img, m, img2, m2, None),
        node(m2, p).lo == node(m, p).lo,
        node(m2, p).hi == Some(s),
        node(m2, r).lo == Some(s),
        node(m2, r).hi is None,
        page::page_ok(true, img2[p]),
        page::page_ok(true, img2[r]),
        img2[p][0] == page::PAGE_LEAF,
        img2[r][0] == page::PAGE_LEAF,
        page::cells(true, img2[p]) == page::cells(true, img[p]),
        page::cells(true, img2[r]).len() == 0,
    ensures
        leaf_inv(img2, m2, p),
        leaf_inv(img2, m2, r),
{
    reveal(leaf_inv);
    lex::order_laws();
    let cs = page::cells(true, img[p]);
    assert forall|i: int| 0 <= i < cs.len() implies entry_ok(img2, m2, node(m2, p), #[trigger] cs[i]) by {
        assert(entry_ok(img, m, node(m, p), cs[i]));
        lemma_value_kept(img, m, img2, m2, cs[i]);
    }
    assert forall|k: Seq<u8>| #[trigger] m2.map.contains_key(k) && in_range(k, node(m2, r).lo, node(m2, r).hi) implies has_key(
        page::cells(true, img2[r]),
        k,
    ) by {
        assert(m.map.contains_key(k));
        assert(in_range(k, node(m, p).lo, node(m, p).hi));
        assert(has_key(cs, k));
        let i = choose|i: int| 0 <= i < cs.len() && page::key_of(true, #[trigger] cs[i]) == k;
        assert(lex::lt(page::key_of(true, cs[i]), s));
    }
    assert forall|k: Seq<u8>| #[trigger] m2.map.contains_key(k) && in_range(k, node(m2, p).lo, node(m2, p).hi) implies has_key(
        cs,
        k,
    ) by {
        assert(m.map.contains_key(k));
        assert(in_range(k, node(m, p).lo, node(m, p).hi));
    }
}

/// Page numbers as integers.
pub open spec fn ints(v: Seq<u64>) -> Seq<int> {
    Seq::new(v.len(), |i: int| v[i] as int)
}

/// Sibling pages of one level from `from` on, with the smallest and the largest key below
/// each.
pub open spec fn level_ok(m: Model, c: Seq<u64>, f: Seq<Seq<u8>>, l: Seq<Seq<u8>>, level: nat, from: int) -> bool {
    &&& c.len() == f.len()
    &&& c.len() == l.len()
    &&& forall|i: int| from <= i < c.len() ==> is_tree(m, #[trigger] c[i] as int) && node(m, c[i] as int).level == level
    &&& forall|i: int| from <= i < c.len() && i > 0 ==> node(m, #[trigger] c[i] as int).lo == Some(
        lex::separator(l[i - 1], f[i]),
    )
}

/// Key ranges in ascending order.
pub open spec fn spans_ok(f: Seq<Seq<u8>>, l: Seq<Seq<u8>>) -> bool {
    &&& f.len() == l.len()
    &&& forall|i: int| 0 <= i < f.len() ==> lex::le(#[trigger] f[i], l[i]) && f[i].len() <= MAX_KEY
    &&& forall|i: int| 0 < i < f.len() ==> lex::lt(l[i - 1], #[trigger] f[i])
}

/// The leaves alone: no internal pages, every leaf topmost.
pub open spec fn leaves_only(m: Model) -> Model {
    Model {
        kind: Map::new(
            |q: int| m.kind.contains_key(q) && !is_inner(m, q),
            |q: int|
                if is_leaf(m, q) {
                    Kind::Tree(Node { parent: 0, ..node(m, q) })
                } else {
                    m.kind[q]
                },
        ),
        tops: m.leaves,
        ..m
    }
}

pub proof fn lemma_leaves_only(img: Seq<Seq<u8>>, m: Model, n: int)
    requires
        inv(img, m, None, n),
    ensures
        inv(img, leaves_only(m), None, n),
        forall|q: int| #[trigger] is_inner(m, q) ==> !leaves_only(m).kind.contains_key(q) && 1 <= q < n,
{
    let m2 = leaves_only(m);
    assert forall|p: int| #[trigger] is_leaf(m2, p) implies is_leaf(m, p) by {}
    assert forall|p: int| #[trigger] is_leaf(m, p) implies is_leaf(m2, p) && node(m2, p).lo == node(m, p).lo && node(
        m2,
        p,
    ).hi == node(m, p).hi by {}
    assert forall|p: int| #[trigger] is_leaf(m2, p) implies leaf_inv(img, m2, p) by {
        assert(is_leaf(m, p));
        lemma_leaf_frame(img, m, img, m2, p, None);
    }
    lemma_chain_frame(img, m, img, m2);
    lemma_free_frame(img, m, img, m2);
    assert(tops_inv(m2, None)) by {
        reveal(tops_inv);
        reveal(chain_inv);
        assert forall|i: int| 0 <= i < m2.tops.len() implies #[trigger] top_ok(m2, None, i) by {
            assert(link_ok(img, m, i));
            if i + 1 < m.leaves.len() {
                assert(link_ok(img, m, i + 1));
            }
        }
        assert forall|i: int, j: int| 0 <= i < j < m2.tops.len() implies #[trigger] m2.tops[i]
            != #[trigger] m2.tops[j] by {
            assert(before(m, m.leaves[i], m.leaves[j]));
        }
    }
}

/// The model without the empty leaf at `x`; its neighbour takes over its range.
pub open spec fn without_leaf(m: Model, x: int) -> Model {
    let p = m.leaves[x];
    let kept = if x > 0 {
        m.kind.insert(m.leaves[x - 1], Kind::Tree(Node { hi: node(m, p).hi, ..node(m, m.leaves[x - 1]) }))
    } else {
        m.kind.insert(m.leaves[x + 1], Kind::Tree(Node { lo: None, ..node(m, m.leaves[x + 1]) }))
    };
    Model { kind: kept.remove(p), leaves: m.leaves.remove(x), tops: m.leaves.remove(x), ..m }
}

/// What unlinking the leaf at `x` leaves of the pages.
pub open spec fn unlinked_pages(img: Seq<Seq<u8>>, m: Model, img2: Seq<Seq<u8>>, x: int) -> bool {
    let ls = m.leaves;
    &&& img2.len() == img.len()
    &&& forall|q: int| 0 <= q < img2.len() ==> (#[trigger] img2[q]).len() == page::PAGE_SIZE
    &&& forall|q: int|
        0 < q < img.len() && q != ls[x] && !(x > 0 && q == ls[x - 1]) && !(x + 1 < ls.len() && q == ls[x + 1])
            ==> #[trigger] img2[q] == img[q]
    &&& x > 0 ==> {
        let a = ls[x - 1];
        &&& page::same_body(true, img[a], img2[a])
        &&& img2[a][0] == img[a][0]
        &&& prev_of(img2[a]) == prev_of(img[a])
        &&& next_of(img2[a]) == next_of(img[ls[x]])
    }
    &&& x + 1 < ls.len() ==> {
        let b = ls[x + 1];
        &&& page::same_body(true, img[b], img2[b])
        &&& img2[b][0] == img[b][0]
        &&& next_of(img2[b]) == next_of(img[b])
        &&& prev_of(img2[b]) == prev_of(img[ls[x]])
    }
}

/// Facts about three consecutive leaves.
pub proof fn lemma_chain_facts(img: Seq<Seq<u8>>, m: Model, i: int, j: int)
    requires
        chain_inv(img, m),
        0 <= i < m.leaves.len(),
        0 <= j < m.leaves.len(),
    ensures
        link_ok(img, m, i),
        link_ok(img, m, j),
        i < j ==> before(m, m.leaves[i], m.leaves[j]),
        j < i ==> before(m, m.leaves[j], m.leaves[i]),
        i != j ==> m.leaves[i] != m.leaves[j],
{
    reveal(chain_inv);
    if i < j {
        assert(before(m, m.leaves[i], m.leaves[j]));
    } else if j < i {
        assert(before(m, m.leaves[j], m.leaves[i]));
    }
}

proof fn lemma_unlink_chain(img: Seq<Seq<u8>>, m: Model, img2: Seq<Seq<u8>>, m2: Model, x: int)
    requires
        chain_inv(img, m),
        0 <= x < m.leaves.len(),
        m.leaves.len() >= 2,
        m2 == without_leaf(m, x),
        unlinked_pages(img, m, img2, x),
        forall|q: int| #[trigger] m.kind.contains_key(q) ==> 0 < q < img.len(),
        forall|q: int| #[trigger] is_tree(m, q) ==> is_leaf(m, q),
    ensures
        chain_inv(img2, m2),
{
    let ls = m.leaves;
    let ls2 = m2.leaves;
    let len = ls.len() as int;
    let old_of = |i: int| if i < x { i } else { i + 1 };
    assert forall|i: int| 0 <= i < len - 1 implies #[trigger] ls2[i] == ls[old_of(i)] by {}
    lex::order_laws();
    lemma_chain_facts(img, m, x, x);
    if x > 0 {
        lemma_chain_facts(img, m, x - 1, x);
    }
    if x + 1 < len {
        lemma_chain_facts(img, m, x, x + 1);
    }
    assert forall|i: int| 0 <= i < len - 1 implies #[trigger] link_ok(img2, m2, i) by {
        let o = old_of(i);
        assert(ls2[i] == ls[o]);
        lemma_chain_facts(img, m, o, x);
        if x > 0 {
            lemma_chain_facts(img, m, o, x - 1);
        }
        if x + 1 < len {
            lemma_chain_facts(img, m, o, x + 1);
        }
        if i + 1 < len - 1 {
            let o2 = old_of(i + 1);
            assert(ls2[i + 1] == ls[o2]);
            lemma_chain_facts(img, m, o2, x);
            lemma_chain_facts(img, m, o, o2);
            if x > 0 {
                lemma_chain_facts(img, m, o2, x - 1);
            }
            if x + 1 < len {
                lemma_chain_facts(img, m, o2, x + 1);
            }
        }
        if i > 0 {
            assert(ls2[i - 1] == ls[old_of(i - 1)]);
        }
    }
    reveal(chain_inv);
    assert forall|q: int| #[trigger] is_leaf(m2, q) implies ls2.contains(q) by {
        assert(is_tree(m, q)) by {
            if x > 0 {
                assert(is_leaf(m, ls[x - 1]));
            }
        }
        assert(is_leaf(m, q));
        assert(ls.contains(q));
        let i = choose|i: int| 0 <= i < len && ls[i] == q;
        if i < x {
            assert(ls2[i] == q);
        } else {
            assert(i != x);
            assert(ls2[i - 1] == ls[old_of(i - 1)]);
            assert(ls2[i - 1] == q);
        }
    }
    assert forall|i: int, j: int| 0 <= i < j < ls2.len() implies before(m2, #[trigger] ls2[i], #[trigger] ls2[j]) by {
        let oi = old_of(i);
        let oj = old_of(j);
        assert(ls2[i] == ls[oi] && ls2[j] == ls[oj]);
        lemma_chain_facts(img, m, oi, oj);
        lemma_chain_facts(img, m, oi, x);
        lemma_chain_facts(img, m, oj, x);
        if x > 0 {
            lemma_chain_facts(img, m, oi, x - 1);
            lemma_chain_facts(img, m, oj, x - 1);
        }
        if x + 1 < len {
            lemma_chain_facts(img, m, oi, x + 1);
            lemma_chain_facts(img, m, oj, x + 1);
        }
    }
}

/// An empty leaf is unlinked from a forest of leaves.
pub proof fn lemma_drop_leaf(img: Seq<Seq<u8>>, m: Model, img2: Seq<Seq<u8>>, m2: Model, n: int, x: int)
    requires
        inv(img, m, None, n),
        m.tops == m.leaves,
        forall|q: int| #[trigger] is_tree(m, q) ==> is_leaf(m, q) && node(m, q).parent == 0,
        0 <= x < m.leaves.len(),
        m.leaves.len() >= 2,
        page::cells(true, img[m.leaves[x]]).len() == 0,
        m2 == without_leaf(m, x),
        unlinked_pages(img, m, img2, x),
    ensures
        inv(img2, m2, None, n),
        leaf_bytes(img2, m2.leaves) == leaf_bytes(img, m.leaves),
        forall|q: int| #[trigger] is_tree(m2, q) ==> is_leaf(m2, q) && node(m2, q).parent == 0,
        !m2.kind.contains_key(m.leaves[x]),
{
    let ls = m.leaves;
    let p = ls[x];
    let len = ls.len() as int;
    lex::order_laws();
    lemma_chain_facts(img, m, x, x);
    if x > 0 {
        lemma_chain_facts(img, m, x - 1, x);
    }
    if x + 1 < len {
        lemma_chain_facts(img, m, x, x + 1);
    }
    assert(bounds_inv(img2, m2, n));
    lemma_unlink_chain(img, m, img2, m2, x);
    assert(extents_kept(img, m, img2, m2, None));
    assert forall|q: int| #[trigger] is_tree(m2, q) implies is_leaf(m2, q) && node(m2, q).parent == 0 && is_leaf(m, q)
        && q != p by {
        if x > 0 {
            assert(is_tree(m, ls[x - 1]));
        } else {
            assert(is_tree(m, ls[x + 1]));
        }
        assert(is_tree(m, q));
    }
    assert forall|q: int| #[trigger] is_leaf(m2, q) implies leaf_inv(img2, m2, q) by {
        assert(is_tree(m2, q));
        assert(is_leaf(m, q));
        lemma_widened(img, m, img2, m2, x, q);
    }
    assert forall|q: int| #[trigger] is_inner(m2, q) implies inner_inv(img2, m2, None, q) by {
        assert(is_tree(m2, q));
    }
    assert(tops_inv(m2, None)) by {
        reveal(tops_inv);
        let ls2 = m2.leaves;
        assert forall|i: int| 0 <= i < ls2.len() implies #[trigger] top_ok(m2, None, i) by {
            lemma_chain_facts(img2, m2, i, i);
            assert(is_tree(m2, ls2[i]));
        }
        assert forall|i: int, j: int| 0 <= i < j < ls2.len() implies #[trigger] m2.tops[i] != #[trigger] m2.tops[j] by {
            lemma_chain_facts(img2, m2, i, j);
        }
    }
    lemma_free_frame(img, m, img2, m2);
    assert forall|i: int| 0 <= i < len implies page::cells(true, img2[#[trigger] ls[i]]) == page::cells(true, img[ls[i]])
        || i == x by {
        lemma_chain_facts(img, m, i, x);
        if i != x {
            lemma_kept_cells(img, m, img2, x, i);
        }
    }
    lemma_leaf_bytes_remove(img, img2, ls, x);
}

/// Leaves other than the one unlinked keep their cells.
pub proof fn lemma_kept_cells(img: Seq<Seq<u8>>, m: Model, img2: Seq<Seq<u8>>, x: int, i: int)
    requires
        forall|q: int| #[trigger] is_leaf(m, q) ==> leaf_inv(img, m, q),
        bounds_inv(img, m, img.len() as int),
        chain_inv(img, m),
        0 <= x < m.leaves.len(),
        0 <= i < m.leaves.len(),
        i != x,
        unlinked_pages(img, m, img2, x),
    ensures
        page::cells(true, img2[m.leaves[i]]) == page::cells(true, img[m.leaves[i]]),
        page::page_ok(true, img2[m.leaves[i]]),
        img2[m.leaves[i]][0] == img[m.leaves[i]][0],
{
    lemma_chain_facts(img, m, i, x);
    let q = m.leaves[i];
    assert(is_leaf(m, q));
    assert(leaf_inv(img, m, q));
    assert(page::page_ok(true, img[q])) by {
        reveal(leaf_inv);
    }
    if i == x - 1 || i == x + 1 {
        page::lemma_same_body(true, img[q], img2[q]);
    } else {
        if x > 0 {
            lemma_chain_facts(img, m, i, x - 1);
        }
        if x + 1 < m.leaves.len() {
            lemma_chain_facts(img, m, i, x + 1);
        }
        assert(m.kind.contains_key(q));
        assert(img2[q] == img[q]);
    }
}

/// A leaf that took over the range of an empty neighbour.
proof fn lemma_widened(img: Seq<Seq<u8>>, m: Model, img2: Seq<Seq<u8>>, m2: Model, x: int, q: int)
    requires
        forall|q: int| #[trigger] is_leaf(m, q) ==> leaf_inv(img, m, q),
        bounds_inv(img, m, img.len() as int),
        chain_inv(img, m),
        0 <= x < m.leaves.len(),
        m.leaves.len() >= 2,
        is_leaf(m, q),
        q != m.leaves[x],
        page::cells(true, img[m.leaves[x]]).len() == 0,
        m2 == without_leaf(m, x),
        extents_kept(img, m, img2, m2, None),
        unlinked_pages(img, m, img2, x),
    ensures
        leaf_inv(img2, m2, q),
{
    lex::order_laws();
    let p = m.leaves[x];
    let len = m.leaves.len() as int;
    lemma_leaf_index(img, m, q);
    let i = leaf_index(m, q);
    lemma_chain_facts(img, m, i, x);
    lemma_kept_cells(img, m, img2, x, i);
    if x > 0 {
        lemma_chain_facts(img, m, x - 1, i);
        lemma_chain_facts(img, m, x - 1, x);
    }
    if x + 1 < len {
        lemma_chain_facts(img, m, x + 1, i);
        lemma_chain_facts(img, m, x, x + 1);
    }
    assert(leaf_inv(img, m, q));
    assert(leaf_inv(img, m, p));
    reveal(leaf_inv);
    let cs = page::cells(true, img[q]);
    let nd = node(m, q);
    let nd2 = node(m2, q);
    let none = page::cells(true, img[p]);
    assert forall|t: int| 0 <= t < cs.len() implies entry_ok(img2, m2, nd2, #[trigger] cs[t]) by {
        assert(entry_ok(img, m, nd, cs[t]));
        lemma_value_kept(img, m, img2, m2, cs[t]);
    }
    assert forall|k: Seq<u8>| #[trigger] m2.map.contains_key(k) && in_range(k, nd2.lo, nd2.hi) implies has_key(cs, k) by {
        assert(m.map.contains_key(k));
        if in_range(k, node(m, p).lo, node(m, p).hi) {
            assert(has_key(none, k));
        }
        assert(in_range(k, nd.lo, nd.hi));
    }
}

proof fn lemma_leaf_bytes_remove(img: Seq<Seq<u8>>, img2: Seq<Seq<u8>>, ls: Seq<int>, x: int)
    requires
        0 <= x < ls.len(),
        page::cells(true, img[ls[x]]).len() == 0,
        forall|i: int|
            0 <= i < ls.len() ==> page::cells(true, img2[#[trigger] ls[i]]) == page::cells(true, img[ls[i]]) || i == x,
    ensures
        leaf_bytes(img2, ls.remove(x)) == leaf_bytes(img, ls),
{
    let r = ls.remove(x);
    assert(r.insert(x, ls[x]) =~= ls);
    lemma_leaf_bytes_insert(img, r, x, ls[x]);
    assert(page::used(page::cells(true, img[ls[x]])) == 0);
    assert forall|i: int| 0 <= i < r.len() implies page::cells(true, img2[#[trigger] r[i]]) == page::cells(
        true,
        img[r[i]],
    ) by {
        if i < x {
            assert(r[i] == ls[i]);
        } else {
            assert(r[i] == ls[i + 1]);
        }
    }
    lemma_leaf_bytes_frame(img, img2, r);
}

/// Some leaf is responsible for each key.
pub proof fn lemma_some_leaf(img: Seq<Seq<u8>>, m: Model, k: Seq<u8>, from: int) -> (x: int)
    requires
        chain_inv(img, m),
        0 <= from < m.leaves.len(),
        node(m, m.leaves[from]).lo is Some ==> !lex::lt(k, node(m, m.leaves[from]).lo->0),
    ensures
        from <= x < m.leaves.len(),
        is_leaf(m, m.leaves[x]),
        in_range(k, node(m, m.leaves[x]).lo, node(m, m.leaves[x]).hi),
    decreases m.leaves.len() - from,
{
    lemma_chain_facts(img, m, from, from);
    let nd = node(m, m.leaves[from]);
    if nd.hi is None || lex::lt(k, nd.hi->0) {
        from
    } else {
        lemma_some_leaf(img, m, k, from + 1)
    }
}

/// The leaves that hold an entry.
pub open spec fn filled_leaves(img: Seq<Seq<u8>>, ls: Seq<int>) -> Seq<int>
    decreases ls.len(),
{
    if ls.len() == 0 {
        Seq::empty()
    } else if page::cells(true, img[ls.last()]).len() > 0 {
        filled_leaves(img, ls.drop_last()).push(ls.last())
    } else {
        filled_leaves(img, ls.drop_last())
    }
}

/// The keys that leaf `p` holds.
pub open spec fn keys_at(m: Model, p: int) -> Set<Seq<u8>> {
    Set::new(|k: Seq<u8>| m.map.contains_key(k) && in_range(k, node(m, p).lo, node(m, p).hi))
}

/// The keys that each of the leaves holds.
pub open spec fn groups(m: Model, ls: Seq<int>) -> Seq<Set<Seq<u8>>> {
    Seq::new(ls.len(), |i: int| keys_at(m, ls[i]))
}

/// The groups that are not empty.
pub open spec fn filled(gs: Seq<Set<Seq<u8>>>) -> Seq<Set<Seq<u8>>>
    decreases gs.len(),
{
    if gs.len() == 0 {
        Seq::empty()
    } else if gs.last() == Set::<Seq<u8>>::empty() {
        filled(gs.drop_last())
    } else {
        filled(gs.drop_last()).push(gs.last())
    }
}

/// The groups that are left once the empty ones are dropped: there is always one.
pub open spec fn held(gs: Seq<Set<Seq<u8>>>) -> Seq<Set<Seq<u8>>> {
    if filled(gs).len() > 0 {
        filled(gs)
    } else {
        seq![Set::empty()]
    }
}

/// Of the groups that are left, none is empty where there are several.
pub proof fn lemma_held(gs: Seq<Set<Seq<u8>>>, i: int)
    requires
        0 <= i < held(gs).len(),
    ensures
        held(gs).len() > 1 ==> held(gs)[i] != Set::<Seq<u8>>::empty(),
{
    if filled(gs).len() > 0 {
        lemma_filled_some(gs, i);
    }
}

proof fn lemma_filled_some(gs: Seq<Set<Seq<u8>>>, i: int)
    requires
        0 <= i < filled(gs).len(),
    ensures
        filled(gs)[i] != Set::<Seq<u8>>::empty(),
    decreases gs.len(),
{
    if i < filled(gs.drop_last()).len() {
        lemma_filled_some(gs.drop_last(), i);
    }
}

/// What is left of each group of the keys in `dom`.
pub open spec fn left_of(gs: Seq<Set<Seq<u8>>>, dom: Set<Seq<u8>>) -> Seq<Set<Seq<u8>>> {
    Seq::new(gs.len(), |i: int| gs[i].intersect(dom))
}

/// The keys of a leaf are those of its cells.
pub proof fn lemma_keys_at(img: Seq<Seq<u8>>, m: Model, p: int)
    requires
        leaf_inv(img, m, p),
    ensures
        forall|k: Seq<u8>| #[trigger] keys_at(m, p).contains(k) <==> has_key(page::cells(true, img[p]), k),
        page::cells(true, img[p]).len() == 0 <==> keys_at(m, p) == Set::<Seq<u8>>::empty(),
{
    reveal(leaf_inv);
    let cs = page::cells(true, img[p]);
    assert forall|k: Seq<u8>| #[trigger] keys_at(m, p).contains(k) <==> has_key(cs, k) by {
        if has_key(cs, k) {
            let i = choose|i: int| 0 <= i < cs.len() && page::key_of(true, #[trigger] cs[i]) == k;
            assert(entry_ok(img, m, node(m, p), cs[i]));
        }
    }
    if cs.len() == 0 {
        assert(keys_at(m, p) =~= Set::<Seq<u8>>::empty());
    } else {
        assert(has_key(cs, page::key_of(true, cs[0])));
        assert(keys_at(m, p).contains(page::key_of(true, cs[0])));
    }
}

/// Dropping the leaves without cells drops the groups without keys.
pub proof fn lemma_filled(img: Seq<Seq<u8>>, m: Model, ls: Seq<int>)
    requires
        forall|i: int| 0 <= i < ls.len() ==> leaf_inv(img, m, #[trigger] ls[i]),
    ensures
        filled(groups(m, ls)) == groups(m, filled_leaves(img, ls)),
    decreases ls.len(),
{
    if ls.len() > 0 {
        let rest = ls.drop_last();
        assert forall|i: int| 0 <= i < rest.len() implies leaf_inv(img, m, #[trigger] rest[i]) by {
            assert(leaf_inv(img, m, ls[i]));
        }
        lemma_filled(img, m, rest);
        assert(groups(m, ls).drop_last() =~= groups(m, rest));
        assert(leaf_inv(img, m, ls[ls.len() - 1]));
        lemma_keys_at(img, m, ls.last());
        assert(groups(m, ls).last() == keys_at(m, ls.last()));
        assert(groups(m, filled_leaves(img, rest).push(ls.last())) =~= groups(m, filled_leaves(img, rest)).push(
            keys_at(m, ls.last()),
        ));
    } else {
        assert(filled(groups(m, ls)) =~= groups(m, filled_leaves(img, ls)));
    }
}

/// A leaf that stays is one of those before.
pub proof fn lemma_kept_leaf(img: Seq<Seq<u8>>, ls: Seq<int>, p: int)
    requires
        filled_leaves(img, ls).contains(p),
    ensures
        ls.contains(p),
    decreases ls.len(),
{
    if ls.len() > 0 {
        let rest = filled_leaves(img, ls.drop_last());
        let i = choose|i: int| 0 <= i < filled_leaves(img, ls).len() && filled_leaves(img, ls)[i] == p;
        if page::cells(true, img[ls.last()]).len() > 0 && i == rest.len() {
            assert(ls[ls.len() - 1] == p);
        } else {
            assert(rest[i] == p);
            lemma_kept_leaf(img, ls.drop_last(), p);
            let j = choose|j: int| 0 <= j < ls.drop_last().len() && ls.drop_last()[j] == p;
            assert(ls[j] == p);
        }
    }
}

/// Leaves that keep their cells hold the same keys, and those without any are dropped.
pub proof fn lemma_groups_held(img: Seq<Seq<u8>>, m: Model, n: int, img2: Seq<Seq<u8>>, m2: Model, n2: int)
    requires
        inv(img, m, None, n),
        inv(img2, m2, None, n2),
        m2.leaves == kept_leaves(img, m.leaves),
        forall|i: int|
            0 <= i < m2.leaves.len() ==> page::cells(true, img2[#[trigger] m2.leaves[i]]) == page::cells(
                true,
                img[m2.leaves[i]],
            ),
    ensures
        groups(m2, m2.leaves) == held(groups(m, m.leaves)),
{
    reveal(chain_inv);
    assert forall|i: int| 0 <= i < m.leaves.len() implies leaf_inv(img, m, #[trigger] m.leaves[i]) by {
        assert(link_ok(img, m, i));
    }
    lemma_filled(img, m, m.leaves);
    let kept = filled_leaves(img, m.leaves);
    assert forall|i: int| 0 <= i < m2.leaves.len() implies keys_at(m2, #[trigger] m2.leaves[i]) == keys_at(
        m,
        m2.leaves[i],
    ) by {
        let p = m2.leaves[i];
        assert(m.leaves.contains(p)) by {
            if kept.len() > 0 {
                assert(kept.contains(p));
                lemma_kept_leaf(img, m.leaves, p);
            } else {
                assert(p == m.leaves[m.leaves.len() - 1]);
            }
        }
        let j = choose|j: int| 0 <= j < m.leaves.len() && m.leaves[j] == p;
        assert(leaf_inv(img, m, m.leaves[j]));
        assert(link_ok(img2, m2, i));
        lemma_keys_at(img, m, p);
        lemma_keys_at(img2, m2, p);
        assert(keys_at(m2, p) =~= keys_at(m, p));
    }
    if kept.len() > 0 {
        assert(groups(m2, m2.leaves) =~= groups(m, kept));
    } else {
        let p = m.leaves.last();
        assert(m2.leaves[0] == p);
        assert(leaf_inv(img, m, m.leaves[m.leaves.len() - 1]));
        lemma_keys_at(img, m, p);
        lemma_unfilled(img, m.leaves);
        assert(groups(m2, m2.leaves) =~= seq![Set::empty()]);
    }
}

proof fn lemma_unfilled(img: Seq<Seq<u8>>, ls: Seq<int>)
    requires
        ls.len() > 0,
        filled_leaves(img, ls).len() == 0,
    ensures
        page::cells(true, img[ls.last()]).len() == 0,
{
}

/// Every page up to the last is accounted for.
pub open spec fn all_used(m: Model, n: int) -> bool {
    forall|q: int| 1 <= q < n ==> #[trigger] m.kind.contains_key(q)
}

/// The internal pages.
pub open spec fn inner_set(m: Model) -> Set<int> {
    m.kind.dom().filter(|q: int| is_inner(m, q))
}

/// The pages of large values.
pub open spec fn extent_set(m: Model) -> Set<int> {
    m.kind.dom().filter(|q: int| is_extent(m, q))
}

/// Every page is the meta page, a leaf, an internal page, part of a value or free.
pub proof fn lemma_pages_add_up(img: Seq<Seq<u8>>, m: Model, n: int)
    requires
        inv(img, m, None, n),
        all_used(m, n),
    ensures
        n == 1 + m.leaves.len() + inner_set(m).len() + extent_set(m).len() + m.free.len(),
        inner_set(m).finite(),
        extent_set(m).finite(),
{
    reveal(chain_inv);
    reveal(free_inv);
    let dom = m.kind.dom();
    vstd::set_lib::lemma_int_range(1, n);
    assert(dom =~= vstd::set_lib::set_int_range(1, n));
    let a = m.leaves.to_set();
    let b = inner_set(m);
    let c = extent_set(m);
    let d = m.free.to_set();
    dom.lemma_len_filter(|q: int| is_inner(m, q));
    dom.lemma_len_filter(|q: int| is_extent(m, q));
    assert(m.leaves.no_duplicates()) by {
        assert forall|i: int, j: int| 0 <= i < m.leaves.len() && 0 <= j < m.leaves.len() && i != j implies m.leaves[i]
            != m.leaves[j] by {
            if i < j {
                assert(before(m, m.leaves[i], m.leaves[j]));
            } else {
                assert(before(m, m.leaves[j], m.leaves[i]));
            }
        }
    }
    m.leaves.unique_seq_to_set();
    assert(m.free.no_duplicates()) by {
        assert forall|i: int, j: int| 0 <= i < m.free.len() && 0 <= j < m.free.len() && i != j implies m.free[i]
            != m.free[j] by {
            if i < j {
                assert(m.free[i] != m.free[j]);
            } else {
                assert(m.free[j] != m.free[i]);
            }
        }
    }
    m.free.unique_seq_to_set();
    vstd::seq_lib::seq_to_set_is_finite(m.leaves);
    vstd::seq_lib::seq_to_set_is_finite(m.free);
    assert forall|q: int| #[trigger] a.contains(q) <==> is_leaf(m, q) by {
        if a.contains(q) {
            let i = choose|i: int| 0 <= i < m.leaves.len() && m.leaves[i] == q;
            assert(link_ok(img, m, i));
        }
    }
    assert forall|q: int| #[trigger] d.contains(q) <==> m.kind.contains_key(q) && m.kind[q] == Kind::Free by {
        if d.contains(q) {
            let i = choose|i: int| 0 <= i < m.free.len() && m.free[i] == q;
            assert(free_ok(img, m, i));
        }
    }
    assert(dom =~= a + b + c + d) by {
        assert forall|q: int| #[trigger] dom.contains(q) implies (a + b + c + d).contains(q) by {
            match m.kind[q] {
                Kind::Tree(nd) => {
                    if nd.level == 0 {
                        assert(a.contains(q));
                    } else {
                        assert(b.contains(q));
                    }
                },
                Kind::Free => {
                    assert(d.contains(q));
                },
                Kind::Extent(k) => {
                    assert(c.contains(q));
                },
            }
        }
        assert forall|q: int| #[trigger] (a + b + c + d).contains(q) implies dom.contains(q) by {}
    }
    vstd::set_lib::lemma_set_disjoint_lens(a, b);
    vstd::set_lib::lemma_set_disjoint_lens(a + b, c);
    vstd::set_lib::lemma_set_disjoint_lens(a + b + c, d);
    assert(a.disjoint(b));
    assert((a + b).disjoint(c));
    assert((a + b + c).disjoint(d));
}

/// The leaves that are left once the empty ones are dropped: there is always one.
pub open spec fn kept_leaves(img: Seq<Seq<u8>>, ls: Seq<int>) -> Seq<int> {
    let filled = filled_leaves(img, ls);
    if filled.len() > 0 {
        filled
    } else {
        seq![ls.last()]
    }
}

/// The ranges of the leaves, cut anew between the largest key of each and the smallest of
/// the next.
pub open spec fn recut(m: Model, f: Seq<Seq<u8>>, l: Seq<Seq<u8>>) -> Model {
    Model {
        kind: Map::new(
            |q: int| m.kind.contains_key(q),
            |q: int|
                if is_leaf(m, q) {
                    let x = leaf_index(m, q);
                    Kind::Tree(
                        Node {
                            lo: if x > 0 {
                                Some(lex::separator(l[x - 1], f[x]))
                            } else {
                                None
                            },
                            hi: if x + 1 < m.leaves.len() {
                                Some(lex::separator(l[x], f[x + 1]))
                            } else {
                                None
                            },
                            ..node(m, q)
                        },
                    )
                } else {
                    m.kind[q]
                },
        ),
        ..m
    }
}

/// `f` and `l` hold the first and the last key of each leaf.
pub open spec fn ends_of(img: Seq<Seq<u8>>, m: Model, f: Seq<Seq<u8>>, l: Seq<Seq<u8>>) -> bool {
    &&& f.len() == m.leaves.len()
    &&& l.len() == m.leaves.len()
    &&& forall|i: int| 0 <= i < f.len() ==> end_of(img[m.leaves[i]], #[trigger] f[i], l[i])
}

pub open spec fn end_of(b: Seq<u8>, first: Seq<u8>, last: Seq<u8>) -> bool {
    let cs = page::cells(true, b);
    &&& cs.len() > 0
    &&& page::key_of(true, cs[0]) == first
    &&& page::key_of(true, cs.last()) == last
}

/// The first and last keys of the leaves rise.
pub proof fn lemma_ends_rise(img: Seq<Seq<u8>>, m: Model, f: Seq<Seq<u8>>, l: Seq<Seq<u8>>, i: int, j: int)
    requires
        chain_inv(img, m),
        forall|q: int| #[trigger] is_leaf(m, q) ==> leaf_inv(img, m, q),
        ends_of(img, m, f, l),
        0 <= i <= j < f.len(),
    ensures
        lex::le(f[i], l[i]),
        f[i].len() <= MAX_KEY,
        i < j ==> lex::lt(l[i], f[j]),
        in_range(f[i], node(m, m.leaves[i]).lo, node(m, m.leaves[i]).hi),
{
    lex::order_laws();
    lemma_chain_facts(img, m, i, j);
    reveal(leaf_inv);
    assert(leaf_inv(img, m, m.leaves[i]) && leaf_inv(img, m, m.leaves[j]));
    assert(end_of(img[m.leaves[i]], f[i], l[i]));
    assert(end_of(img[m.leaves[j]], f[j], l[j]));
    let a = page::cells(true, img[m.leaves[i]]);
    let b = page::cells(true, img[m.leaves[j]]);
    assert(entry_ok(img, m, node(m, m.leaves[i]), a[0]));
    assert(entry_ok(img, m, node(m, m.leaves[i]), a[a.len() - 1]));
    assert(entry_ok(img, m, node(m, m.leaves[j]), b[0]));
    if a.len() > 1 {
        assert(lex::lt(page::key_of(true, a[0]), page::key_of(true, a[a.len() - 1])));
    }
}

/// Cutting the ranges anew keeps the forest.
pub proof fn lemma_recut(img: Seq<Seq<u8>>, m: Model, n: int, f: Seq<Seq<u8>>, l: Seq<Seq<u8>>)
    requires
        inv(img, m, None, n),
        m.tops == m.leaves,
        forall|q: int| #[trigger] is_tree(m, q) ==> is_leaf(m, q) && node(m, q).parent == 0,
        ends_of(img, m, f, l),
    ensures
        inv(img, recut(m, f, l), None, n),
        forall|i: int| 0 < i < m.leaves.len() ==> node(recut(m, f, l), #[trigger] m.leaves[i]).lo == Some(
            lex::separator(l[i - 1], f[i]),
        ),
        forall|q: int| #[trigger] is_tree(recut(m, f, l), q) == is_tree(m, q),
{
    let m2 = recut(m, f, l);
    let ls = m.leaves;
    lex::order_laws();
    assert forall|i: int| 0 <= i < ls.len() implies is_leaf(m, #[trigger] ls[i]) && leaf_index(m, ls[i]) == i by {
        lemma_chain_facts(img, m, i, i);
        lemma_leaf_index(img, m, ls[i]);
        lemma_chain_facts(img, m, i, leaf_index(m, ls[i]));
    }
    assert forall|i: int| 0 <= i < ls.len() implies recut_ok(m, m2, f, l, i, #[trigger] ls[i]) by {}
    assert forall|p: int| #[trigger] is_leaf(m2, p) implies leaf_inv(img, m2, p) by {
        assert(is_tree(m, p));
        lemma_leaf_index(img, m, p);
        lemma_recut_leaf(img, m, m2, f, l, leaf_index(m, p));
    }
    assert forall|q: int| #[trigger] is_inner(m2, q) implies inner_inv(img, m2, None, q) by {
        assert(is_tree(m, q));
    }
    assert(chain_inv(img, m2)) by {
        assert forall|i: int| 0 <= i < ls.len() implies #[trigger] link_ok(img, m2, i) by {
            lemma_chain_facts(img, m, i, i);
            assert(recut_ok(m, m2, f, l, i, ls[i]));
            if i + 1 < ls.len() {
                assert(recut_ok(m, m2, f, l, i + 1, ls[i + 1]));
                lemma_ends_rise(img, m, f, l, i, i + 1);
                lex::separator_between(l[i], f[i + 1]);
            }
            if i > 0 {
                lemma_ends_rise(img, m, f, l, i - 1, i);
                lex::separator_between(l[i - 1], f[i]);
                lemma_ends_rise(img, m, f, l, i, i);
            }
        }
        assert forall|i: int, j: int| 0 <= i < j < ls.len() implies before(m2, #[trigger] ls[i], #[trigger] ls[j]) by {
            lemma_chain_facts(img, m, i, j);
            assert(recut_ok(m, m2, f, l, i, ls[i]));
            assert(recut_ok(m, m2, f, l, j, ls[j]));
            lemma_ends_rise(img, m, f, l, i, i + 1);
            lex::separator_between(l[i], f[i + 1]);
            lemma_ends_rise(img, m, f, l, j - 1, j);
            lex::separator_between(l[j - 1], f[j]);
            if i + 1 < j {
                lemma_ends_rise(img, m, f, l, i + 1, j - 1);
                lemma_ends_rise(img, m, f, l, i + 1, i + 1);
                lemma_ends_rise(img, m, f, l, j - 1, j - 1);
            }
        }
        reveal(chain_inv);
        assert forall|p: int| #[trigger] is_leaf(m2, p) implies ls.contains(p) by {
            assert(is_tree(m, p));
            assert(is_leaf(m, p));
        }
    }
    assert(tops_inv(m2, None)) by {
        reveal(tops_inv);
        assert forall|i: int| 0 <= i < m2.tops.len() implies #[trigger] top_ok(m2, None, i) by {
            lemma_chain_facts(img, m2, i, i);
            assert(is_tree(m, ls[i]));
        }
        assert forall|i: int, j: int| 0 <= i < j < m2.tops.len() implies #[trigger] m2.tops[i]
            != #[trigger] m2.tops[j] by {
            lemma_chain_facts(img, m, i, j);
        }
    }
    lemma_free_frame(img, m, img, m2);
    assert forall|i: int| 0 < i < ls.len() implies node(m2, #[trigger] ls[i]).lo == Some(
        lex::separator(l[i - 1], f[i]),
    ) by {
        assert(recut_ok(m, m2, f, l, i, ls[i]));
    }
}

/// Leaf `i` after its range was cut anew.
spec fn recut_ok(m: Model, m2: Model, f: Seq<Seq<u8>>, l: Seq<Seq<u8>>, i: int, p: int) -> bool {
    &&& is_leaf(m2, p)
    &&& node(m2, p).parent == node(m, p).parent
    &&& node(m2, p).lo == (if i > 0 {
        Some(lex::separator(l[i - 1], f[i]))
    } else {
        None
    })
    &&& node(m2, p).hi == (if i + 1 < m.leaves.len() {
        Some(lex::separator(l[i], f[i + 1]))
    } else {
        None
    })
}

proof fn lemma_recut_leaf(img: Seq<Seq<u8>>, m: Model, m2: Model, f: Seq<Seq<u8>>, l: Seq<Seq<u8>>, x: int)
    requires
        chain_inv(img, m),
        forall|q: int| #[trigger] is_leaf(m, q) ==> leaf_inv(img, m, q),
        ends_of(img, m, f, l),
        0 <= x < m.leaves.len(),
        m2 == recut(m, f, l),
        forall|i: int| 0 <= i < m.leaves.len() ==> recut_ok(m, m2, f, l, i, #[trigger] m.leaves[i]),
    ensures
        leaf_inv(img, m2, m.leaves[x]),
{
    lex::order_laws();
    let ls = m.leaves;
    let p = ls[x];
    lemma_chain_facts(img, m, x, x);
    assert(leaf_inv(img, m, p));
    assert(recut_ok(m, m2, f, l, x, p));
    let cs = page::cells(true, img[p]);
    let nd = node(m, p);
    let nd2 = node(m2, p);
    if x > 0 {
        lemma_ends_rise(img, m, f, l, x - 1, x);
        lex::separator_between(l[x - 1], f[x]);
    }
    if x + 1 < ls.len() {
        lemma_ends_rise(img, m, f, l, x, x + 1);
        lex::separator_between(l[x], f[x + 1]);
    }
    lemma_ends_rise(img, m, f, l, x, x);
    assert(end_of(img[p], f[x], l[x]));
    assert forall|t: int| 0 <= t < cs.len() implies entry_ok(img, m2, nd2, #[trigger] cs[t]) by {
        lemma_recut_entry(img, m, m2, p, f[x], l[x], t);
    }
    assert(page::page_ok(true, img[p]) && img[p][0] == page::PAGE_LEAF && page::keys_sorted(true, cs)) by {
        reveal(leaf_inv);
    }
    assert forall|k: Seq<u8>| #[trigger] m2.map.contains_key(k) && in_range(k, nd2.lo, nd2.hi) implies has_key(cs, k) by {
        assert(m.map.contains_key(k));
        lemma_recut_cover(img, m, f, l, x, k);
    }
    reveal(leaf_inv);
}

/// A leaf's entries lie in any range that holds its first and its last key.
proof fn lemma_recut_entry(img: Seq<Seq<u8>>, m: Model, m2: Model, p: int, first: Seq<u8>, last: Seq<u8>, t: int)
    requires
        leaf_inv(img, m, p),
        end_of(img[p], first, last),
        m2.map == m.map,
        forall|q: int|
            #[trigger] m.kind.contains_key(q) && m.kind[q] is Extent ==> m2.kind.contains_key(q) && m2.kind[q] == m.kind[q],
        in_range(first, node(m2, p).lo, node(m2, p).hi),
        in_range(last, node(m2, p).lo, node(m2, p).hi),
        0 <= t < page::cells(true, img[p]).len(),
    ensures
        entry_ok(img, m2, node(m2, p), page::cells(true, img[p])[t]),
{
    reveal(leaf_inv);
    lex::order_laws();
    let cs = page::cells(true, img[p]);
    assert(entry_ok(img, m, node(m, p), cs[t]));
    if t > 0 {
        assert(lex::lt(page::key_of(true, cs[0]), page::key_of(true, cs[t])));
    }
    if t < cs.len() - 1 {
        assert(lex::lt(page::key_of(true, cs[t]), page::key_of(true, cs[cs.len() - 1])));
    }
    lemma_value_kept(img, m, img, m2, cs[t]);
}

/// The keys of a leaf lie between its first and its last.
proof fn lemma_between_ends(img: Seq<Seq<u8>>, m: Model, f: Seq<Seq<u8>>, l: Seq<Seq<u8>>, y: int, k: Seq<u8>)
    requires
        leaf_inv(img, m, m.leaves[y]),
        0 <= y < m.leaves.len(),
        ends_of(img, m, f, l),
        has_key(page::cells(true, img[m.leaves[y]]), k),
    ensures
        lex::le(f[y], k),
        lex::le(k, l[y]),
{
    reveal(leaf_inv);
    let ds = page::cells(true, img[m.leaves[y]]);
    assert(end_of(img[m.leaves[y]], f[y], l[y]));
    let t = choose|t: int| 0 <= t < ds.len() && page::key_of(true, #[trigger] ds[t]) == k;
    if t > 0 {
        assert(lex::lt(page::key_of(true, ds[0]), page::key_of(true, ds[t])));
    }
    if t < ds.len() - 1 {
        assert(lex::lt(page::key_of(true, ds[t]), page::key_of(true, ds[ds.len() - 1])));
    }
}

/// A key of the map in the new range of a leaf is in that leaf.
proof fn lemma_recut_cover(img: Seq<Seq<u8>>, m: Model, f: Seq<Seq<u8>>, l: Seq<Seq<u8>>, x: int, k: Seq<u8>)
    requires
        chain_inv(img, m),
        forall|q: int| #[trigger] is_leaf(m, q) ==> leaf_inv(img, m, q),
        ends_of(img, m, f, l),
        0 <= x < m.leaves.len(),
        m.map.contains_key(k),
        x > 0 ==> !lex::lt(k, lex::separator(l[x - 1], f[x])),
        x + 1 < m.leaves.len() ==> lex::lt(k, lex::separator(l[x], f[x + 1])),
    ensures
        has_key(page::cells(true, img[m.leaves[x]]), k),
{
    lemma_chain_facts(img, m, 0, 0);
    assert(m.leaves.len() >= 1) by {
        reveal(chain_inv);
    }
    let y = lemma_some_leaf(img, m, k, 0);
    assert(leaf_inv(img, m, m.leaves[y]));
    assert(has_key(page::cells(true, img[m.leaves[y]]), k)) by {
        reveal(leaf_inv);
    }
    lemma_between_ends(img, m, f, l, y, k);
    if y < x {
        lemma_ends_rise(img, m, f, l, x - 1, x);
        lex::separator_between(l[x - 1], f[x]);
        lemma_ends_rise(img, m, f, l, y, x - 1);
        lex::order_laws();
    } else if y > x {
        lemma_ends_rise(img, m, f, l, x, x + 1);
        lex::separator_between(l[x], f[x + 1]);
        lemma_ends_rise(img, m, f, l, x + 1, y);
        lemma_ends_rise(img, m, f, l, x + 1, x + 1);
        lemma_ends_rise(img, m, f, l, y, y);
        lex::order_laws();
    }
}

// ---- reaching every page from the root ----------------------------------------------------

/// The inner children of page `p` before `upto` are on one of two lists.
pub open spec fn kids_listed(img: Seq<Seq<u8>>, m: Model, f: Seq<int>, s: Seq<int>, p: int, upto: int) -> bool {
    forall|j: int|
        #![trigger kid(img[p], j)]
        0 <= j < upto && is_inner(m, kid(img[p], j)) ==> f.contains(kid(img[p], j)) || s.contains(kid(img[p], j))
}

/// The inner children of all pages on the list `f`, but for `p`, are on one of two lists.
pub open spec fn all_listed(img: Seq<Seq<u8>>, m: Model, f: Seq<int>, s: Seq<int>, p: int) -> bool {
    forall|q: int| #[trigger]
        f.contains(q) && q != p ==> kids_listed(img, m, f, s, q, page::cells(false, img[q]).len() as int + 1)
}

/// Inner pages that are the root or have their parent on the list `f`.
pub open spec fn hang_on(m: Model, root: int, f: Seq<int>, s: Seq<int>) -> bool {
    forall|q: int| #[trigger] s.contains(q) ==> is_inner(m, q) && (q == root || f.contains(node(m, q).parent))
}

pub proof fn lemma_ints_push(v: Seq<u64>, x: u64)
    ensures
        forall|q: int| #[trigger] ints(v.push(x)).contains(q) == (ints(v).contains(q) || q == x),
{
    let w = v.push(x);
    assert forall|q: int| #[trigger] ints(w).contains(q) == (ints(v).contains(q) || q == x) by {
        if ints(v).contains(q) {
            let i = choose|i: int| 0 <= i < ints(v).len() && ints(v)[i] == q;
            assert(ints(w)[i] == q);
        }
        assert(ints(w)[v.len() as int] == x);
        if ints(w).contains(q) {
            let i = choose|i: int| 0 <= i < ints(w).len() && ints(w)[i] == q;
            if i < v.len() {
                assert(ints(v)[i] == q);
            }
        }
    }
}

/// A page moves from the second list to the first.
pub proof fn lemma_popped(
    img: Seq<Seq<u8>>,
    m: Model,
    root: int,
    f: Seq<int>,
    s: Seq<int>,
    f2: Seq<int>,
    s2: Seq<int>,
    p: int,
)
    requires
        forall|q: int| #[trigger] m.kind.contains_key(q) ==> 1 <= q,
        all_listed(img, m, f, s, -1),
        hang_on(m, root, f, f),
        hang_on(m, root, f, s),
        forall|q: int| #[trigger] f2.contains(q) == (f.contains(q) || q == p),
        forall|q: int| #[trigger] s.contains(q) == (s2.contains(q) || q == p),
    ensures
        all_listed(img, m, f2, s2, p),
        hang_on(m, root, f2, f2),
        hang_on(m, root, f2, s2),
{
    assert forall|q: int| #[trigger] f2.contains(q) && q != p implies kids_listed(
        img,
        m,
        f2,
        s2,
        q,
        page::cells(false, img[q]).len() as int + 1,
    ) by {
        assert(f.contains(q) && is_inner(m, q));
        assert(q != -1 ==> kids_listed(img, m, f, s, q, page::cells(false, img[q]).len() as int + 1));
    }
    assert(s.contains(p));
    assert forall|q: int| #[trigger] s2.contains(q) implies is_inner(m, q) && (q == root || f2.contains(
        node(m, q).parent,
    )) by {
        assert(s.contains(q));
    }
    assert forall|q: int| #[trigger] f2.contains(q) implies is_inner(m, q) && (q == root || f2.contains(
        node(m, q).parent,
    )) by {
        assert(f.contains(q) || s.contains(q));
    }
}

/// A page of the first list leaves the second.
pub proof fn lemma_passed_over(
    img: Seq<Seq<u8>>,
    m: Model,
    root: int,
    f: Seq<int>,
    s: Seq<int>,
    s2: Seq<int>,
    p: int,
)
    requires
        all_listed(img, m, f, s, -1),
        hang_on(m, root, f, s),
        f.contains(p),
        forall|q: int| #[trigger] s.contains(q) == (s2.contains(q) || q == p),
    ensures
        all_listed(img, m, f, s2, -1),
        hang_on(m, root, f, s2),
{
    assert forall|q: int| #[trigger] f.contains(q) && q != -1 implies kids_listed(
        img,
        m,
        f,
        s2,
        q,
        page::cells(false, img[q]).len() as int + 1,
    ) by {
        assert(kids_listed(img, m, f, s, q, page::cells(false, img[q]).len() as int + 1));
    }
    assert forall|q: int| #[trigger] s2.contains(q) implies is_inner(m, q) && (q == root || f.contains(
        node(m, q).parent,
    )) by {
        assert(s.contains(q));
    }
}

/// The children of `p` too are on one of the lists.
pub proof fn lemma_listed_whole(img: Seq<Seq<u8>>, m: Model, f: Seq<int>, s: Seq<int>, p: int)
    requires
        all_listed(img, m, f, s, p),
        kids_listed(img, m, f, s, p, page::cells(false, img[p]).len() as int + 1),
    ensures
        all_listed(img, m, f, s, -1),
{
}

/// A page joins the second list.
pub proof fn lemma_joined(
    img: Seq<Seq<u8>>,
    m: Model,
    root: int,
    f: Seq<int>,
    s: Seq<int>,
    s2: Seq<int>,
    p: int,
    upto: int,
    c: int,
)
    requires
        all_listed(img, m, f, s, p),
        kids_listed(img, m, f, s, p, upto),
        hang_on(m, root, f, s),
        is_inner(m, c),
        f.contains(node(m, c).parent),
        forall|q: int| #[trigger] s2.contains(q) == (s.contains(q) || q == c),
    ensures
        all_listed(img, m, f, s2, p),
        kids_listed(img, m, f, s2, p, upto),
        hang_on(m, root, f, s2),
{
    assert forall|q: int| #[trigger] f.contains(q) && q != p implies kids_listed(
        img,
        m,
        f,
        s2,
        q,
        page::cells(false, img[q]).len() as int + 1,
    ) by {
        assert(kids_listed(img, m, f, s, q, page::cells(false, img[q]).len() as int + 1));
    }
    assert forall|q: int| #[trigger] s2.contains(q) implies is_inner(m, q) && (q == root || f.contains(
        node(m, q).parent,
    )) by {
        assert(s.contains(q) || q == c);
    }
}

/// A page that starts where the key lies: with nothing before it, or with the key in its range.
spec fn leads(nd: Node, k: Option<Seq<u8>>) -> bool {
    match k {
        None => nd.lo is None,
        Some(x) => in_range(x, nd.lo, nd.hi),
    }
}

/// Some child from `j` on is responsible for a key that is not before it.
proof fn lemma_pick_kid(cs: Seq<Seq<u8>>, nd: Node, k: Seq<u8>, j: int) -> (r: int)
    requires
        0 <= j <= cs.len(),
        in_range(k, nd.lo, nd.hi),
        kid_lo(cs, nd, j) is Some ==> !lex::lt(k, kid_lo(cs, nd, j)->0),
    ensures
        j <= r <= cs.len(),
        in_range(k, kid_lo(cs, nd, r), kid_hi(cs, nd, r)),
    decreases cs.len() - j,
{
    if j == cs.len() || lex::lt(k, page::key_of(false, cs[j])) {
        j
    } else {
        lemma_pick_kid(cs, nd, k, j + 1)
    }
}

/// From a page that leads to a key down to a leaf that does, over pages on the list.
proof fn lemma_lead_down(
    img: Seq<Seq<u8>>,
    m: Model,
    n: int,
    root: int,
    f: Seq<int>,
    p: int,
    k: Option<Seq<u8>>,
) -> (c: int)
    requires
        inv(img, m, None, n),
        all_listed(img, m, f, Seq::empty(), -1),
        is_tree(m, p),
        is_inner(m, p) ==> f.contains(p),
        p == root || f.contains(node(m, p).parent),
        leads(node(m, p), k),
    ensures
        is_leaf(m, c),
        c == root || f.contains(node(m, c).parent),
        leads(node(m, c), k),
    decreases node(m, p).level,
{
    if is_leaf(m, p) {
        p
    } else {
        reveal(inner_inv);
        assert(is_inner(m, p));
        assert(inner_inv(img, m, None, p));
        let cs = page::cells(false, img[p]);
        let j = match k {
            None => 0,
            Some(x) => lemma_pick_kid(cs, node(m, p), x, 0),
        };
        let c = kid(img[p], j);
        assert(kid_ok(img, m, None, p, j));
        assert(kids_listed(img, m, f, Seq::empty(), p, cs.len() as int + 1));
        assert(!Seq::<int>::empty().contains(c));
        lemma_lead_down(img, m, n, root, f, c, k)
    }
}

/// Two leaves that lead to the start of one of them are one.
proof fn lemma_lead_one(img: Seq<Seq<u8>>, m: Model, c: int, d: int)
    requires
        chain_inv(img, m),
        is_leaf(m, c),
        is_leaf(m, d),
        leads(node(m, d), node(m, c).lo),
    ensures
        c == d,
{
    lex::order_laws();
    lemma_leaf_index(img, m, c);
    lemma_leaf_index(img, m, d);
    lemma_chain_facts(img, m, leaf_index(m, c), leaf_index(m, d));
}

/// A list of inner pages that holds the root and with each page its inner children, and with each
/// page but the root its parent, holds all inner pages.
pub proof fn lemma_all_inner(img: Seq<Seq<u8>>, m: Model, n: int, f: Seq<int>)
    requires
        inv(img, m, None, n),
        m.tops.len() == 1,
        is_inner(m, m.tops[0]) ==> f.contains(m.tops[0]),
        all_listed(img, m, f, Seq::empty(), -1),
        hang_on(m, m.tops[0], f, f),
    ensures
        forall|q: int| #[trigger] is_inner(m, q) ==> f.contains(q),
{
    assert forall|q: int| #[trigger] is_inner(m, q) implies f.contains(q) by {
        lemma_inner_listed(img, m, n, f, q);
    }
}

proof fn lemma_inner_listed(img: Seq<Seq<u8>>, m: Model, n: int, f: Seq<int>, q: int)
    requires
        inv(img, m, None, n),
        m.tops.len() == 1,
        is_inner(m, m.tops[0]) ==> f.contains(m.tops[0]),
        all_listed(img, m, f, Seq::empty(), -1),
        hang_on(m, m.tops[0], f, f),
        is_inner(m, q),
    ensures
        f.contains(q),
    decreases node(m, q).level,
{
    let root = m.tops[0];
    reveal(inner_inv);
    assert(inner_inv(img, m, None, q));
    let c = kid(img[q], 0);
    assert(kid_ok(img, m, None, q, 0));
    assert(m.kind.contains_key(q));
    assert(top_ok(m, None, 0)) by {
        reveal(tops_inv);
    }
    if is_inner(m, c) {
        lemma_inner_listed(img, m, n, f, c);
    } else {
        assert(is_leaf(m, c));
        let d = lemma_lead_down(img, m, n, root, f, root, node(m, c).lo);
        lemma_lead_one(img, m, c, d);
    }
}

/// Trees on the same pages have each page at the same level.
pub proof fn lemma_same_level(img: Seq<Seq<u8>>, m: Model, w: Model, a: int, b: int, p: int)
    requires
        inv(img, m, None, a),
        inv(img, w, None, b),
        is_tree(m, p),
        is_tree(w, p),
    ensures
        node(m, p).level == node(w, p).level,
    decreases node(m, p).level,
{
    assert(is_leaf(m, p) || is_inner(m, p));
    assert(is_leaf(w, p) || is_inner(w, p));
    assert(is_leaf(m, p) ==> leaf_inv(img, m, p));
    assert(is_leaf(w, p) ==> leaf_inv(img, w, p));
    assert(is_inner(m, p) ==> inner_inv(img, m, None, p));
    assert(is_inner(w, p) ==> inner_inv(img, w, None, p));
    reveal(leaf_inv);
    reveal(inner_inv);
    if is_inner(m, p) {
        let c = kid(img[p], 0);
        assert(kid_ok(img, m, None, p, 0));
        assert(kid_ok(img, w, None, p, 0));
        lemma_same_level(img, m, w, a, b, c);
    }
}

// ---- packed leaves are the fewest ----------------------------------------

/// The cells of each leaf.
pub open spec fn blocks(img: Seq<Seq<u8>>, ls: Seq<int>) -> Seq<Seq<Seq<u8>>> {
    Seq::new(ls.len(), |i: int| page::cells(true, img[ls[i]]))
}

/// The cells of all blocks, one after the other.
pub open spec fn flat(bs: Seq<Seq<Seq<u8>>>) -> Seq<Seq<u8>>
    decreases bs.len(),
{
    if bs.len() == 0 {
        Seq::empty()
    } else {
        flat(bs.drop_last()) + bs.last()
    }
}

/// The first block has no room for the first cell of the second.
pub open spec fn no_room(a: Seq<Seq<u8>>, b: Seq<Seq<u8>>) -> bool {
    b.len() > 0 && page::used(a) + b[0].len() + 2 > page::page_room(true)
}

/// No block has room for the first cell of the next.
pub open spec fn all_tight(bs: Seq<Seq<Seq<u8>>>) -> bool {
    forall|i: int, j: int| 0 <= i && j == i + 1 && j < bs.len() ==> no_room(#[trigger] bs[i], #[trigger] bs[j])
}

/// How many cells the first `i` blocks have.
pub open spec fn upto(bs: Seq<Seq<Seq<u8>>>, i: int) -> int {
    flat(bs.take(i)).len() as int
}

proof fn lemma_flat_step(bs: Seq<Seq<Seq<u8>>>, i: int)
    requires
        0 <= i < bs.len(),
    ensures
        flat(bs.take(i + 1)) == flat(bs.take(i)) + bs[i],
        upto(bs, i + 1) == upto(bs, i) + bs[i].len(),
{
    assert(bs.take(i + 1).drop_last() =~= bs.take(i));
}

proof fn lemma_flat_prefix(bs: Seq<Seq<Seq<u8>>>, i: int)
    requires
        0 <= i <= bs.len(),
    ensures
        upto(bs, i) <= flat(bs).len(),
        flat(bs).take(upto(bs, i)) == flat(bs.take(i)),
    decreases bs.len() - i,
{
    if i == bs.len() {
        assert(bs.take(i) =~= bs);
        assert(flat(bs).take(flat(bs).len() as int) =~= flat(bs));
    } else {
        lemma_flat_prefix(bs, i + 1);
        lemma_flat_step(bs, i);
        let n = upto(bs, i);
        assert(flat(bs).take(n) =~= flat(bs).take(upto(bs, i + 1)).take(n));
        assert(flat(bs.take(i + 1)).take(n) =~= flat(bs.take(i)));
    }
}

/// A block is a stretch of the cells of all.
proof fn lemma_flat_at(bs: Seq<Seq<Seq<u8>>>, i: int)
    requires
        0 <= i < bs.len(),
    ensures
        0 <= upto(bs, i) <= upto(bs, i + 1) <= flat(bs).len(),
        upto(bs, i + 1) == upto(bs, i) + bs[i].len(),
        flat(bs).subrange(upto(bs, i), upto(bs, i + 1)) == bs[i],
{
    lemma_flat_prefix(bs, i + 1);
    lemma_flat_step(bs, i);
    let a = upto(bs, i);
    let b = upto(bs, i + 1);
    assert(flat(bs).subrange(a, b) =~= flat(bs).take(b).subrange(a, b));
    assert(flat(bs.take(i + 1)).subrange(a, b) =~= bs[i]);
}

/// The block and the place in it of a cell.
proof fn lemma_flat_find(bs: Seq<Seq<Seq<u8>>>, x: int) -> (r: (int, int))
    requires
        0 <= x < flat(bs).len(),
    ensures
        0 <= r.0 < bs.len(),
        0 <= r.1 < bs[r.0].len(),
        x == upto(bs, r.0) + r.1,
        flat(bs)[x] == bs[r.0][r.1],
    decreases bs.len(),
{
    let rest = bs.drop_last();
    let n = bs.len() - 1;
    assert(bs.take(n) =~= rest);
    if x < flat(rest).len() {
        let r = lemma_flat_find(rest, x);
        assert(rest.take(r.0) =~= bs.take(r.0));
        r
    } else {
        (n, x - flat(rest).len())
    }
}

/// Cells of the same lengths take the same room.
proof fn lemma_used_same(a: Seq<Seq<u8>>, b: Seq<Seq<u8>>)
    requires
        a.len() == b.len(),
        forall|i: int| 0 <= i < a.len() ==> (#[trigger] a[i]).len() == b[i].len(),
    ensures
        page::used(a) == page::used(b),
    decreases a.len(),
{
    if a.len() > 0 {
        assert(a[a.len() - 1].len() == b[a.len() - 1].len());
        assert forall|i: int| 0 <= i < a.drop_last().len() implies (#[trigger] a.drop_last()[i]).len()
            == b.drop_last()[i].len() by {
            assert(a[i].len() == b[i].len());
        }
        lemma_used_same(a.drop_last(), b.drop_last());
    }
}

/// A stretch of cells takes no more room than a longer one around it.
proof fn lemma_used_within(cs: Seq<Seq<u8>>, a: int, b: int, x: int, y: int)
    requires
        0 <= a <= x <= y <= b <= cs.len(),
    ensures
        page::used(cs.subrange(x, y)) <= page::used(cs.subrange(a, b)),
{
    page::lemma_used_mono(cs, a, b);
    page::lemma_used_mono(cs, a, x);
    page::lemma_used_mono(cs, x, y);
    page::lemma_used_mono(cs, y, b);
}

/// Packed blocks reach no less far than others that fit.
proof fn lemma_packed_ahead(a: Seq<Seq<Seq<u8>>>, b: Seq<Seq<Seq<u8>>>, i: int)
    requires
        flat(a).len() == flat(b).len(),
        forall|x: int| 0 <= x < flat(a).len() ==> (#[trigger] flat(a)[x]).len() == flat(b)[x].len(),
        all_tight(a),
        forall|t: int| 0 <= t < b.len() ==> page::used(#[trigger] b[t]) <= page::page_room(true),
        0 <= i < a.len(),
        i <= b.len(),
    ensures
        upto(a, i) >= upto(b, i),
    decreases i,
{
    if i == 0 {
        assert(a.take(0) =~= b.take(0));
    } else {
        lemma_packed_ahead(a, b, i - 1);
        lemma_flat_at(a, i - 1);
        lemma_flat_at(b, i - 1);
        if upto(a, i) < upto(b, i) {
            let f = flat(a);
            let g = flat(b);
            let x = upto(a, i - 1);
            let y = upto(a, i);
            assert(no_room(a[i - 1], a[i]));
            lemma_flat_at(a, i);
            assert(f.subrange(y, upto(a, i + 1))[0] == a[i][0]);
            assert(f[y] == a[i][0]);
            assert(f.subrange(x, y + 1).drop_last() =~= a[i - 1]);
            assert(f.subrange(x, y + 1).last() == f[y]);
            let u = f.subrange(x, y + 1);
            let v = g.subrange(x, y + 1);
            assert forall|t: int| 0 <= t < u.len() implies (#[trigger] u[t]).len() == v[t].len() by {
                assert(f[x + t].len() == g[x + t].len());
            }
            lemma_used_same(u, v);
            lemma_used_within(g, upto(b, i - 1), upto(b, i), x, y + 1);
            assert(page::used(b[i - 1]) <= page::page_room(true));
        }
    }
}

/// No blocks that fit are fewer than packed ones of the same cells.
proof fn lemma_packed_fewest(a: Seq<Seq<Seq<u8>>>, b: Seq<Seq<Seq<u8>>>)
    requires
        flat(a).len() == flat(b).len(),
        forall|x: int| 0 <= x < flat(a).len() ==> (#[trigger] flat(a)[x]).len() == flat(b)[x].len(),
        all_tight(a),
        forall|t: int| 0 <= t < b.len() ==> page::used(#[trigger] b[t]) <= page::page_room(true),
        b.len() >= 1,
    ensures
        a.len() <= b.len(),
{
    if a.len() > b.len() {
        let n = b.len() as int;
        lemma_packed_ahead(a, b, n);
        assert(b.take(n) =~= b);
        assert(no_room(a[n - 1], a[n]));
        lemma_flat_at(a, n);
    }
}

/// Sorted sequences of the same keys are the same.
proof fn lemma_same_keys(a: Seq<Seq<u8>>, b: Seq<Seq<u8>>)
    requires
        forall|i: int, j: int| 0 <= i < j < a.len() ==> lex::lt(#[trigger] a[i], #[trigger] a[j]),
        forall|i: int, j: int| 0 <= i < j < b.len() ==> lex::lt(#[trigger] b[i], #[trigger] b[j]),
        forall|k: Seq<u8>| #[trigger] a.contains(k) <==> b.contains(k),
    ensures
        a == b,
    decreases a.len(),
{
    lex::order_laws();
    if a.len() == 0 {
        if b.len() > 0 {
            assert(b.contains(b[0]));
            assert(a.contains(b[0]));
        }
        assert(a =~= b);
    } else {
        assert(a.contains(a[0]));
        let n = a.len() - 1;
        let m = b.len() - 1;
        assert(a.contains(a[n]));
        let i = choose|i: int| 0 <= i < b.len() && b[i] == a[n];
        assert(b.contains(b[i]));
        assert(b.contains(b[m]));
        assert(a.contains(b[m]));
        let j = choose|j: int| 0 <= j < a.len() && a[j] == b[m];
        assert(a[n] == b[m]) by {
            if i < m && j < n {
                assert(lex::lt(b[i], b[m]));
                assert(lex::lt(a[j], a[n]));
            }
        }
        let ra = a.drop_last();
        let rb = b.drop_last();
        assert forall|k: Seq<u8>| #[trigger] ra.contains(k) <==> rb.contains(k) by {
            if ra.contains(k) {
                let x = choose|x: int| 0 <= x < ra.len() && ra[x] == k;
                assert(a[x] == k);
                assert(lex::lt(a[x], a[n]));
                assert(a.contains(k));
                let y = choose|y: int| 0 <= y < b.len() && b[y] == k;
                assert(rb[y] == k);
            }
            if rb.contains(k) {
                let y = choose|y: int| 0 <= y < rb.len() && rb[y] == k;
                assert(b[y] == k);
                assert(lex::lt(b[y], b[m]));
                assert(b.contains(k));
                assert(a.contains(k));
                let x = choose|x: int| 0 <= x < a.len() && a[x] == k;
                assert(ra[x] == k);
            }
        }
        lemma_same_keys(ra, rb);
        assert(a =~= ra.push(a[n]));
        assert(b =~= rb.push(b[m]));
    }
}

/// Bytes of the cell of an entry.
pub open spec fn cell_size(key: int, value: int) -> int {
    if key + value + 6 > MAX_INLINE {
        key + 14
    } else {
        key + value + 6
    }
}

/// An entry stands in its cell whole, behind 6 bytes, as long as that takes no more than 4064 bytes;
/// else the cell has 8 bytes in place of the value, which takes pages of 4096 bytes: as many as it
/// needs, and no more.
pub proof fn values_go_where_they_fit(key: int, value: int)
    requires
        0 <= key,
        0 <= value,
    ensures
        key + value + 6 <= 4064 ==> cell_size(key, value) == key + value + 6,
        key + value + 6 > 4064 ==> cell_size(key, value) == key + 14,
        4096 * extent_pages(value) >= value,
        value > 0 ==> 4096 * (extent_pages(value) - 1) < value,
        value == 0 ==> extent_pages(value) == 0,
{
}

/// The keys of cells.
spec fn keys_in(cs: Seq<Seq<u8>>) -> Seq<Seq<u8>> {
    Seq::new(cs.len(), |i: int| page::key_of(true, cs[i]))
}

/// The cells of the leaves in order hold the entries in order.
proof fn lemma_flat_keys(img: Seq<Seq<u8>>, m: Model, n: int)
    requires
        inv(img, m, None, n),
        forall|k: Seq<u8>| #[trigger]
            m.map.contains_key(k) ==> exists|i: int|
                0 <= i < m.leaves.len() && in_range(k, node(m, #[trigger] m.leaves[i]).lo, node(m, m.leaves[i]).hi),
    ensures
        ({
            let f = flat(blocks(img, m.leaves));
            let ks = keys_in(f);
            &&& forall|i: int, j: int| 0 <= i < j < ks.len() ==> lex::lt(#[trigger] ks[i], #[trigger] ks[j])
            &&& forall|k: Seq<u8>| #[trigger] ks.contains(k) <==> m.map.contains_key(k)
            &&& forall|i: int|
                0 <= i < f.len() ==> (#[trigger] f[i]).len() == cell_size(
                    ks[i].len() as int,
                    m.map[ks[i]].len() as int,
                )
        }),
{
    let bs = blocks(img, m.leaves);
    let f = flat(bs);
    let ks = keys_in(f);
    reveal(chain_inv);
    assert forall|t: int| 0 <= t < bs.len() implies leaf_inv(img, m, #[trigger] m.leaves[t]) by {
        assert(link_ok(img, m, t));
    }
    assert forall|i: int| 0 <= i < f.len() implies m.map.contains_key(ks[i]) && (#[trigger] f[i]).len() == cell_size(
        ks[i].len() as int,
        m.map[ks[i]].len() as int,
    ) by {
        let (t, x) = lemma_flat_find(bs, i);
        let p = m.leaves[t];
        assert(leaf_inv(img, m, m.leaves[t]));
        reveal(leaf_inv);
        assert(bs[t] == page::cells(true, img[p]));
        assert(entry_ok(img, m, node(m, p), bs[t][x]));
        page::lemma_page_cells(true, img[p]);
        assert(page::cell_ok(true, bs[t][x]));
    }
    assert forall|i: int, j: int| 0 <= i < j < ks.len() implies lex::lt(#[trigger] ks[i], #[trigger] ks[j]) by {
        let (t, x) = lemma_flat_find(bs, i);
        let (u, y) = lemma_flat_find(bs, j);
        reveal(leaf_inv);
        assert(leaf_inv(img, m, m.leaves[t]));
        assert(leaf_inv(img, m, m.leaves[u]));
        assert(entry_ok(img, m, node(m, m.leaves[t]), bs[t][x]));
        assert(entry_ok(img, m, node(m, m.leaves[u]), bs[u][y]));
        if u < t {
            lemma_upto_mono(bs, u + 1, t);
            lemma_flat_step(bs, u);
        } else if u == t {
            assert(page::keys_sorted(true, bs[t]));
            assert(lex::lt(page::key_of(true, bs[t][x]), page::key_of(true, bs[t][y])));
        } else {
            lex::order_laws();
            assert(before(m, m.leaves[t], m.leaves[u]));
        }
    }
    assert forall|k: Seq<u8>| #[trigger] ks.contains(k) <==> m.map.contains_key(k) by {
        if m.map.contains_key(k) {
            let t = choose|i: int|
                0 <= i < m.leaves.len() && in_range(k, node(m, #[trigger] m.leaves[i]).lo, node(m, m.leaves[i]).hi);
            assert(leaf_inv(img, m, m.leaves[t]));
            reveal(leaf_inv);
            let cs = page::cells(true, img[m.leaves[t]]);
            assert(has_key(cs, k));
            let x = choose|x: int| 0 <= x < cs.len() && page::key_of(true, #[trigger] cs[x]) == k;
            lemma_flat_at(bs, t);
            assert(f.subrange(upto(bs, t), upto(bs, t + 1))[x] == bs[t][x]);
            assert(ks[upto(bs, t) + x] == k);
        }
        if ks.contains(k) {
            let i = choose|i: int| 0 <= i < ks.len() && ks[i] == k;
            assert(f[i].len() == cell_size(ks[i].len() as int, m.map[ks[i]].len() as int));
        }
    }
}

proof fn lemma_upto_mono(bs: Seq<Seq<Seq<u8>>>, a: int, b: int)
    requires
        0 <= a <= b <= bs.len(),
    ensures
        upto(bs, a) <= upto(bs, b),
    decreases b - a,
{
    if a < b {
        lemma_upto_mono(bs, a, b - 1);
        lemma_flat_step(bs, b - 1);
    }
}

/// Packed leaves are no more than any leaves with the same entries.
pub proof fn lemma_fewest_leaves(img: Seq<Seq<u8>>, m: Model, n: int, img2: Seq<Seq<u8>>, m2: Model, n2: int)
    requires
        inv(img, m, None, n),
        inv(img2, m2, None, n2),
        m2.map == m.map,
        packed(img2, m2.leaves),
        forall|k: Seq<u8>| #[trigger]
            m.map.contains_key(k) ==> exists|i: int|
                0 <= i < m.leaves.len() && in_range(k, node(m, #[trigger] m.leaves[i]).lo, node(m, m.leaves[i]).hi),
        forall|k: Seq<u8>| #[trigger]
            m2.map.contains_key(k) ==> exists|i: int|
                0 <= i < m2.leaves.len() && in_range(k, node(m2, #[trigger] m2.leaves[i]).lo, node(m2, m2.leaves[i]).hi),
    ensures
        m2.leaves.len() <= m.leaves.len(),
{
    lemma_flat_keys(img, m, n);
    lemma_flat_keys(img2, m2, n2);
    let a = blocks(img2, m2.leaves);
    let b = blocks(img, m.leaves);
    let ka = keys_in(flat(a));
    let kb = keys_in(flat(b));
    assert forall|k: Seq<u8>| #[trigger] ka.contains(k) <==> kb.contains(k) by {
        assert(ka.contains(k) <==> m2.map.contains_key(k));
        assert(kb.contains(k) <==> m.map.contains_key(k));
    }
    lemma_same_keys(ka, kb);
    assert forall|x: int| 0 <= x < flat(a).len() implies (#[trigger] flat(a)[x]).len() == flat(b)[x].len() by {
        assert(ka[x] == kb[x]);
    }
    reveal(chain_inv);
    assert forall|t: int| 0 <= t < b.len() implies page::used(#[trigger] b[t]) <= page::page_room(true) by {
        assert(link_ok(img, m, t));
        assert(leaf_inv(img, m, m.leaves[t]));
        reveal(leaf_inv);
        page::lemma_page_cells(true, img[m.leaves[t]]);
    }
    assert forall|i: int, j: int| 0 <= i && j == i + 1 && j < a.len() implies no_room(
        #[trigger] a[i],
        #[trigger] a[j],
    ) by {
        assert(tight(img2, m2.leaves[i], m2.leaves[j]));
    }
    lemma_packed_fewest(a, b);
}

// ---- where a new cell goes -----------------------------------------------

/// The blocks with block `i` replaced by the cells `cs`, cut before cell `m`.
pub open spec fn in_two(bs: Seq<Seq<Seq<u8>>>, i: int, cs: Seq<Seq<u8>>, m: int) -> Seq<Seq<Seq<u8>>> {
    bs.take(i) + seq![cs.take(m), cs.skip(m)] + bs.skip(i + 1)
}

/// Cell `c` was put before cell `pos` of block `i`, which was cut in two where it has no room.
pub open spec fn put_or_cut(bs: Seq<Seq<Seq<u8>>>, to: Seq<Seq<Seq<u8>>>, i: int, pos: int, c: Seq<u8>) -> bool {
    let cs = bs[i].insert(pos, c);
    if page::used(cs) <= page::page_room(true) {
        to == bs.update(i, cs)
    } else {
        exists|m: int| #[trigger] page::is_leaf_cut(cs, m) && to == in_two(bs, i, cs, m)
    }
}

/// Cell `c` was put before cell `pos` of block `i`. Where no cut leaves two halves that fit, the
/// block was cut there first, and the cell put at the start of the second half.
pub open spec fn put_cell(bs: Seq<Seq<Seq<u8>>>, to: Seq<Seq<Seq<u8>>>, i: int, pos: int, c: Seq<u8>) -> bool {
    let cs = bs[i].insert(pos, c);
    if page::used(cs) <= page::page_room(true) || exists|m: int| #[trigger] page::leaf_cut_fits(cs, m) {
        put_or_cut(bs, to, i, pos, c)
    } else {
        put_or_cut(in_two(bs, i, bs[i], pos), to, i + 1, 0, c)
    }
}

/// The cell `c` of an entry was put at place `pos` of block `i`: over the cell of its key where
/// both hold values of one length, in its place where they do not, and before the next key where
/// there is none.
pub open spec fn entry_put(bs: Seq<Seq<Seq<u8>>>, to: Seq<Seq<Seq<u8>>>, i: int, pos: int, c: Seq<u8>) -> bool {
    &&& 0 <= i < bs.len()
    &&& 0 <= pos <= bs[i].len()
    &&& if pos < bs[i].len() && page::key_of(true, bs[i][pos]) == page::key_of(true, c) {
        if page::raw_of(bs[i][pos]) == page::raw_of(c) && page::raw_of(c) < page::OVFL_FLAG {
            to == bs.update(i, bs[i].update(pos, c))
        } else {
            put_cell(bs.update(i, bs[i].remove(pos)), to, i, pos, c)
        }
    } else {
        put_cell(bs, to, i, pos, c)
    }
}

/// The cell of `key` was taken out of block `i`, where it was at place `pos`.
pub open spec fn entry_cut(bs: Seq<Seq<Seq<u8>>>, to: Seq<Seq<Seq<u8>>>, i: int, pos: int, key: Seq<u8>) -> bool {
    &&& 0 <= i < bs.len()
    &&& 0 <= pos < bs[i].len()
    &&& page::key_of(true, bs[i][pos]) == key
    &&& to == bs.update(i, bs[i].remove(pos))
}

/// A leaf has one place in the chain.
pub proof fn lemma_index_at(img: Seq<Seq<u8>>, m: Model, i: int)
    requires
        chain_inv(img, m),
        0 <= i < m.leaves.len(),
    ensures
        leaf_index(m, m.leaves[i]) == i,
{
    reveal(chain_inv);
    let j = leaf_index(m, m.leaves[i]);
    if i < j {
        assert(before(m, m.leaves[i], m.leaves[j]));
    } else if j < i {
        assert(before(m, m.leaves[j], m.leaves[i]));
    }
}

/// The blocks after a leaf was cut in two.
pub proof fn lemma_blocks_cut(
    img: Seq<Seq<u8>>,
    ls: Seq<int>,
    img2: Seq<Seq<u8>>,
    i: int,
    r: int,
    cs: Seq<Seq<u8>>,
    m: int,
)
    requires
        0 <= i < ls.len(),
        page::cells(true, img2[ls[i]]) == cs.take(m),
        page::cells(true, img2[r]) == cs.skip(m),
        forall|j: int|
            0 <= j < ls.len() && j != i ==> page::cells(true, img2[#[trigger] ls[j]]) == page::cells(true, img[ls[j]]),
    ensures
        blocks(img2, ls.insert(i + 1, r)) == in_two(blocks(img, ls), i, cs, m),
{
    let a = blocks(img2, ls.insert(i + 1, r));
    let b = in_two(blocks(img, ls), i, cs, m);
    assert forall|j: int| 0 <= j < a.len() implies #[trigger] a[j] == b[j] by {
        if j < i {
            assert(ls.insert(i + 1, r)[j] == ls[j]);
        } else if j == i {
            assert(ls.insert(i + 1, r)[j] == ls[i]);
        } else if j > i + 1 {
            assert(ls.insert(i + 1, r)[j] == ls[j - 1]);
            assert(b[j] == blocks(img, ls)[j - 1]);
        }
    }
    assert(a =~= b);
}

/// The blocks after one leaf has changed.
pub proof fn lemma_blocks_one(img: Seq<Seq<u8>>, ls: Seq<int>, img2: Seq<Seq<u8>>, i: int)
    requires
        0 <= i < ls.len(),
        forall|j: int|
            0 <= j < ls.len() && j != i ==> page::cells(true, img2[#[trigger] ls[j]]) == page::cells(true, img[ls[j]]),
    ensures
        blocks(img2, ls) == blocks(img, ls).update(i, page::cells(true, img2[ls[i]])),
{
    assert(blocks(img2, ls) =~= blocks(img, ls).update(i, page::cells(true, img2[ls[i]])));
}

} // verus!
