//! Slotted pages: a header, an array of two-byte slots growing up and the cells they point
//! to, packed from the end of the page down.
//!
//! Leaf cells hold `[key length u16][value length u32][key][value]`; the top bit of the value
//! length marks a value kept outside the page, of which the cell holds the eight-byte number
//! of its first page. Internal cells hold `[key length u16][child u64][separator]`.

use crate::utils::le;
use crate::utils::lex;
use vstd::prelude::*;

verus! {

pub const PAGE_SIZE: usize = 4096;

pub const HEADER_SIZE: usize = 16;

pub const LEAF_HEADER_SIZE: usize = 24;

pub const SLOT_SIZE: usize = 2;

pub const PAGE_LEAF: u8 = 1;

pub const PAGE_INTERNAL: u8 = 2;

pub const FLAG_ROOT: u8 = 1;

pub const OVFL_FLAG: u32 = 0x8000_0000;

/// Bytes before the slot array.
pub open spec fn page_header(leaf: bool) -> int {
    if leaf {
        LEAF_HEADER_SIZE as int
    } else {
        HEADER_SIZE as int
    }
}

/// Bytes of a page that slots and cells share.
pub open spec fn page_room(leaf: bool) -> int {
    PAGE_SIZE - page_header(leaf)
}

/// Bytes of a cell before its key.
pub open spec fn cell_header(leaf: bool) -> int {
    if leaf {
        6
    } else {
        10
    }
}

/// Bytes that follow the key of a leaf cell with value length field `raw`.
pub open spec fn payload_len(raw: u32) -> int {
    if raw >= OVFL_FLAG {
        8
    } else {
        raw as int
    }
}

/// The length of the cell that starts at `s`, read from its own header.
pub open spec fn cell_len_at(leaf: bool, b: Seq<u8>, s: int) -> int {
    if leaf {
        6 + le::u16_at(b, s) as int + payload_len(le::u32_at(b, s + 2))
    } else {
        10 + le::u16_at(b, s) as int
    }
}

/// `c` is one whole cell.
pub open spec fn cell_ok(leaf: bool, c: Seq<u8>) -> bool {
    &&& c.len() >= cell_header(leaf)
    &&& c.len() == cell_len_at(leaf, c, 0)
}

pub open spec fn page_count(b: Seq<u8>) -> int {
    le::u16_at(b, 2) as int
}

pub open spec fn page_data_off(b: Seq<u8>) -> int {
    le::u32_at(b, 4) as int
}

/// The offset that slot `i` holds.
pub open spec fn slot(leaf: bool, b: Seq<u8>, i: int) -> int {
    le::u16_at(b, page_header(leaf) + 2 * i) as int
}

/// The cell that slot `i` points to.
pub open spec fn cell_at(leaf: bool, b: Seq<u8>, i: int) -> Seq<u8> {
    b.subrange(slot(leaf, b, i), slot(leaf, b, i) + cell_len_at(leaf, b, slot(leaf, b, i)))
}

/// The cells of a page in slot order.
pub open spec fn cells(leaf: bool, b: Seq<u8>) -> Seq<Seq<u8>> {
    Seq::new(page_count(b) as nat, |i: int| cell_at(leaf, b, i))
}

/// Bytes that the cells take with their slots.
pub open spec fn used(cs: Seq<Seq<u8>>) -> int
    decreases cs.len(),
{
    if cs.len() == 0 {
        0
    } else {
        used(cs.drop_last()) + cs.last().len() + 2
    }
}

/// A page whose slots point to whole cells that do not overlap and fill the page from
/// its data offset to its end.
#[verifier::opaque]
pub open spec fn page_ok(leaf: bool, b: Seq<u8>) -> bool {
    &&& b.len() == PAGE_SIZE
    &&& page_header(leaf) + 2 * page_count(b) <= page_data_off(b) <= PAGE_SIZE
    &&& forall|i: int| 0 <= i < page_count(b) ==> slot_ok(leaf, b, #[trigger] slot(leaf, b, i))
    &&& forall|i: int, j: int|
        0 <= i < page_count(b) && 0 <= j < page_count(b) && i != j ==> apart(
            leaf,
            b,
            #[trigger] slot(leaf, b, i),
            #[trigger] slot(leaf, b, j),
        )
    &&& used(cells(leaf, b)) == PAGE_SIZE - page_data_off(b) + 2 * page_count(b)
}

pub open spec fn slot_ok(leaf: bool, b: Seq<u8>, s: int) -> bool {
    page_data_off(b) <= s && s + cell_header(leaf) <= PAGE_SIZE && s + cell_len_at(leaf, b, s) <= PAGE_SIZE
}

pub open spec fn apart(leaf: bool, b: Seq<u8>, s: int, t: int) -> bool {
    s + cell_len_at(leaf, b, s) <= t || t + cell_len_at(leaf, b, t) <= s
}

/// Everything of the header but the count and the data offset is the same in both pages.
pub open spec fn same_header(leaf: bool, a: Seq<u8>, b: Seq<u8>) -> bool {
    &&& a[0] == b[0]
    &&& a[1] == b[1]
    &&& forall|i: int| 8 <= i < page_header(leaf) ==> a[i] == b[i]
}

pub proof fn lemma_used_insert(cs: Seq<Seq<u8>>, pos: int, c: Seq<u8>)
    requires
        0 <= pos <= cs.len(),
    ensures
        used(cs.insert(pos, c)) == used(cs) + c.len() + 2,
    decreases cs.len(),
{
    let r = cs.insert(pos, c);
    if pos == cs.len() {
        assert(r.drop_last() =~= cs);
    } else {
        assert(r.drop_last() =~= cs.drop_last().insert(pos, c));
        lemma_used_insert(cs.drop_last(), pos, c);
    }
}

pub proof fn lemma_used_remove(cs: Seq<Seq<u8>>, pos: int)
    requires
        0 <= pos < cs.len(),
    ensures
        used(cs.remove(pos)) == used(cs) - cs[pos].len() - 2,
    decreases cs.len(),
{
    let r = cs.remove(pos);
    assert(r.insert(pos, cs[pos]) =~= cs);
    lemma_used_insert(r, pos, cs[pos]);
}

pub proof fn lemma_used_append(a: Seq<Seq<u8>>, b: Seq<Seq<u8>>)
    ensures
        used(a + b) == used(a) + used(b),
    decreases b.len(),
{
    if b.len() == 0 {
        assert(a + b =~= a);
    } else {
        assert((a + b).drop_last() =~= a + b.drop_last());
        lemma_used_append(a, b.drop_last());
    }
}

pub proof fn lemma_used_bound(cs: Seq<Seq<u8>>)
    ensures
        used(cs) >= 2 * cs.len(),
        forall|i: int| 0 <= i < cs.len() ==> used(cs) >= (#[trigger] cs[i]).len() + 2,
    decreases cs.len(),
{
    if cs.len() > 0 {
        lemma_used_bound(cs.drop_last());
        assert forall|i: int| 0 <= i < cs.len() implies used(cs) >= (#[trigger] cs[i]).len() + 2 by {
            if i < cs.len() - 1 {
                assert(cs.drop_last()[i] == cs[i]);
            }
        }
    }
}

/// A cell moved as it is keeps its length.
pub proof fn lemma_cell_moved(leaf: bool, a: Seq<u8>, s: int, b: Seq<u8>, t: int)
    requires
        0 <= s,
        0 <= t,
        s + cell_header(leaf) <= a.len(),
        s + cell_len_at(leaf, a, s) <= a.len(),
        t + cell_len_at(leaf, a, s) <= b.len(),
        forall|i: int| 0 <= i < cell_len_at(leaf, a, s) ==> #[trigger] b[t + i] == a[s + i],
    ensures
        cell_len_at(leaf, b, t) == cell_len_at(leaf, a, s),
        b.subrange(t, t + cell_len_at(leaf, b, t)) == a.subrange(s, s + cell_len_at(leaf, a, s)),
{
    assert(b[t + 0] == a[s + 0]);
    assert(b[t + 1] == a[s + 1]);
    le::lemma_u16_same(a, b, s, t);
    if leaf {
        assert forall|i: int| 0 <= i < 4 implies #[trigger] a[s + 2 + i] == b[t + 2 + i] by {
            assert(b[t + (2 + i)] == a[s + (2 + i)]);
        }
        le::lemma_u32_same(a, b, s + 2, t + 2);
    }
    let n = cell_len_at(leaf, a, s);
    assert(b.subrange(t, t + n) =~= a.subrange(s, s + n)) by {
        assert forall|i: int| 0 <= i < n implies #[trigger] b.subrange(t, t + n)[i] == a.subrange(s, s + n)[i] by {
            assert(b[t + i] == a[s + i]);
        }
    }
}

/// What a well-formed page guarantees of its cells.
pub proof fn lemma_page_cells(leaf: bool, b: Seq<u8>)
    requires
        page_ok(leaf, b),
    ensures
        b.len() == PAGE_SIZE,
        cells(leaf, b).len() == page_count(b),
        used(cells(leaf, b)) <= page_room(leaf),
        used(cells(leaf, b)) == PAGE_SIZE - page_data_off(b) + 2 * page_count(b),
        forall|i: int| 0 <= i < page_count(b) ==> cell_ok(leaf, #[trigger] cells(leaf, b)[i]),
{
    reveal(page_ok);
    assert forall|i: int| 0 <= i < page_count(b) implies cell_ok(leaf, #[trigger] cells(leaf, b)[i]) by {
        let s = slot(leaf, b, i);
        let c = cells(leaf, b)[i];
        assert(slot_ok(leaf, b, s));
        le::lemma_u16_same(b, c, s, 0);
        if leaf {
            assert forall|i: int| 0 <= i < 4 implies #[trigger] b[s + 2 + i] == c[2 + i] by {}
            le::lemma_u32_same(b, c, s + 2, 2);
        }
    }
}

/// Both pages have the same count, data offset, slots and cells.
pub open spec fn same_body(leaf: bool, a: Seq<u8>, b: Seq<u8>) -> bool {
    &&& a.len() == PAGE_SIZE
    &&& b.len() == PAGE_SIZE
    &&& forall|i: int| 2 <= i < 8 || page_header(leaf) <= i < PAGE_SIZE ==> #[trigger] b[i] == a[i]
}

/// What a page holds does not depend on the rest of its header.
pub proof fn lemma_same_body(leaf: bool, a: Seq<u8>, b: Seq<u8>)
    requires
        same_body(leaf, a, b),
        page_ok(leaf, a),
    ensures
        page_ok(leaf, b),
        cells(leaf, b) == cells(leaf, a),
{
    reveal(page_ok);
    le::lemma_u16_same(a, b, 2, 2);
    assert forall|i: int| 0 <= i < 4 implies #[trigger] a[4 + i] == b[4 + i] by {}
    le::lemma_u32_same(a, b, 4, 4);
    assert forall|i: int| 0 <= i < page_count(a) implies {
        let s = slot(leaf, a, i);
        &&& #[trigger] slot(leaf, b, i) == s
        &&& cell_len_at(leaf, b, s) == cell_len_at(leaf, a, s)
        &&& b.subrange(s, s + cell_len_at(leaf, b, s)) == a.subrange(s, s + cell_len_at(leaf, a, s))
    } by {
        let s = slot(leaf, a, i);
        assert(slot_ok(leaf, a, s));
        le::lemma_u16_same(a, b, page_header(leaf) + 2 * i, page_header(leaf) + 2 * i);
        lemma_cell_moved(leaf, a, s, b, s);
    }
    assert(cells(leaf, b) =~= cells(leaf, a)) by {
        assert forall|i: int| 0 <= i < page_count(a) implies #[trigger] cells(leaf, b)[i] == cells(leaf, a)[i] by {
            assert(slot(leaf, b, i) == slot(leaf, a, i));
        }
    }
    assert forall|i: int| 0 <= i < page_count(b) implies slot_ok(leaf, b, #[trigger] slot(leaf, b, i)) by {
        assert(slot_ok(leaf, a, slot(leaf, a, i)));
    }
    assert forall|i: int, j: int|
        0 <= i < page_count(b) && 0 <= j < page_count(b) && i != j implies apart(
        leaf,
        b,
        #[trigger] slot(leaf, b, i),
        #[trigger] slot(leaf, b, j),
    ) by {
        assert(apart(leaf, a, slot(leaf, a, i), slot(leaf, a, j)));
    }
}

/// An empty page.
pub fn reset_page(b: &mut Vec<u8>, leaf: bool)
    requires
        old(b)@.len() == PAGE_SIZE,
    ensures
        page_ok(leaf, final(b)@),
        cells(leaf, final(b)@) == Seq::<Seq<u8>>::empty(),
        same_header(leaf, old(b)@, final(b)@),
{
    le::wr_u16(b, 2, 0);
    le::wr_u32(b, 4, PAGE_SIZE as u32);
    proof {
        reveal(page_ok);
        le::lemma_u16_same(le::splice(old(b)@, 2, le::le2(0)), b@, 2, 2);
        assert(page_count(b@) == 0);
        assert(cells(leaf, b@) =~= Seq::<Seq<u8>>::empty());
    }
}

/// The number of cells.
pub fn read_count(b: &Vec<u8>) -> (n: usize)
    requires
        b@.len() == PAGE_SIZE,
    ensures
        n == page_count(b@),
{
    le::rd_u16(b.as_slice(), 2) as usize
}

/// Bytes not taken by slots or cells.
pub fn free_space(b: &Vec<u8>, leaf: bool) -> (n: usize)
    requires
        page_ok(leaf, b@),
    ensures
        n == page_room(leaf) - used(cells(leaf, b@)),
{
    proof {
        reveal(page_ok);
    }
    let h: usize = if leaf { LEAF_HEADER_SIZE } else { HEADER_SIZE };
    let off: usize = le::rd_u32(b.as_slice(), 4) as usize;
    let n: usize = le::rd_u16(b.as_slice(), 2) as usize;
    off - (h + 2 * n)
}

/// Where the cell of slot `i` starts and ends.
pub fn cell_bounds(b: &Vec<u8>, leaf: bool, i: usize) -> (r: (usize, usize))
    requires
        page_ok(leaf, b@),
        i < page_count(b@),
    ensures
        r.0 + cell_header(leaf) <= r.1 <= PAGE_SIZE,
        r.0 == slot(leaf, b@, i as int),
        cells(leaf, b@)[i as int] == b@.subrange(r.0 as int, r.1 as int),
        cell_ok(leaf, cells(leaf, b@)[i as int]),
        r.1 - r.0 == cells(leaf, b@)[i as int].len(),
{
    proof {
        lemma_page_cells(leaf, b@);
        reveal(page_ok);
        assert(slot_ok(leaf, b@, slot(leaf, b@, i as int)));
        assert(cell_ok(leaf, cells(leaf, b@)[i as int]));
    }
    let h: usize = if leaf { LEAF_HEADER_SIZE } else { HEADER_SIZE };
    let s: usize = le::rd_u16(b.as_slice(), h + 2 * i) as usize;
    let klen: usize = le::rd_u16(b.as_slice(), s) as usize;
    let len: usize = if leaf {
        let raw: u32 = le::rd_u32(b.as_slice(), s + 2);
        6 + klen + (if raw >= OVFL_FLAG { 8usize } else { raw as usize })
    } else {
        10 + klen
    };
    (s, s + len)
}

/// A copy of cell `i`.
pub fn copy_cell(b: &Vec<u8>, leaf: bool, i: usize) -> (c: Vec<u8>)
    requires
        page_ok(leaf, b@),
        i < page_count(b@),
    ensures
        c@ == cells(leaf, b@)[i as int],
        cell_ok(leaf, c@),
{
    let (s, e) = cell_bounds(b, leaf, i);
    proof {
        lemma_page_cells(leaf, b@);
    }
    le::copy_range(b.as_slice(), s, e)
}

/// Puts a cell before slot `pos`.
pub fn insert_cell(b: &mut Vec<u8>, leaf: bool, pos: usize, c: &[u8])
    requires
        page_ok(leaf, old(b)@),
        pos <= page_count(old(b)@),
        cell_ok(leaf, c@),
        used(cells(leaf, old(b)@)) + c@.len() + 2 <= page_room(leaf),
    ensures
        page_ok(leaf, final(b)@),
        cells(leaf, final(b)@) == cells(leaf, old(b)@).insert(pos as int, c@),
        same_header(leaf, old(b)@, final(b)@),
{
    let ghost b0 = b@;
    let ghost cs0 = cells(leaf, b0);
    proof {
        reveal(page_ok);
    }
    let h: usize = if leaf { LEAF_HEADER_SIZE } else { HEADER_SIZE };
    let n: usize = le::rd_u16(b.as_slice(), 2) as usize;
    let off: usize = le::rd_u32(b.as_slice(), 4) as usize;
    let at: usize = off - c.len();
    le::write_at(b, at, c);
    let ghost b1 = b@;
    proof {
        assert forall|k: int| 0 <= k < n implies #[trigger] le::u16_at(b1, h + 2 * k) == le::u16_at(b0, h + 2 * k) by {
            le::lemma_u16_same(b0, b1, h + 2 * k, h + 2 * k);
        }
    }
    let mut j: usize = n;
    while j > pos
        invariant
            b@.len() == PAGE_SIZE,
            h == page_header(leaf),
            pos <= j <= n,
            h + 2 * n + 2 <= at <= PAGE_SIZE,
            forall|x: int| 0 <= x < PAGE_SIZE && !(h + 2 * pos + 2 <= x < h + 2 * n + 2) ==> b@[x] == b1[x],
            b1.len() == PAGE_SIZE,
            forall|k: int| 0 <= k < j ==> #[trigger] le::u16_at(b@, h + 2 * k) == le::u16_at(b1, h + 2 * k),
            forall|k: int| j < k <= n ==> #[trigger] le::u16_at(b@, h + 2 * k) == le::u16_at(b1, h + 2 * k - 2),
        decreases j,
    {
        let ghost prev = b@;
        let v: u16 = le::rd_u16(b.as_slice(), h + 2 * (j - 1));
        assert(v == le::u16_at(prev, h + 2 * (j - 1)));
        assert(v == le::u16_at(b1, h + 2 * (j - 1)));
        le::wr_u16(b, h + 2 * j, v);
        j = j - 1;
        proof {
            assert forall|k: int| 0 <= k < j implies #[trigger] le::u16_at(b@, h + 2 * k) == le::u16_at(b1, h + 2 * k) by {
                le::lemma_u16_same(prev, b@, h + 2 * k, h + 2 * k);
                assert(le::u16_at(prev, h + 2 * k) == le::u16_at(b1, h + 2 * k));
            }
            assert forall|k: int| j < k <= n implies #[trigger] le::u16_at(b@, h + 2 * k) == le::u16_at(b1, h + 2 * k - 2) by {
                if k > j + 1 {
                    le::lemma_u16_same(prev, b@, h + 2 * k, h + 2 * k);
                    assert(le::u16_at(prev, h + 2 * k) == le::u16_at(b1, h + 2 * k - 2));
                }
            }
        }
    }
    let ghost b2 = b@;
    le::wr_u16(b, h + 2 * pos, at as u16);
    let ghost b3 = b@;
    le::wr_u16(b, 2, (n + 1) as u16);
    let ghost b4 = b@;
    le::wr_u32(b, 4, at as u32);
    proof {
        let bf = b@;
        le::lemma_u16_same(b4, bf, 2, 2);
        assert(page_count(bf) == n + 1);
        assert(page_data_off(bf) == at);
        assert forall|k: int| 0 <= k <= n implies #[trigger] slot(leaf, bf, k) == (if k < pos {
            slot(leaf, b0, k)
        } else if k == pos {
            at as int
        } else {
            slot(leaf, b0, k - 1)
        }) by {
            le::lemma_u16_same(b4, bf, h + 2 * k, h + 2 * k);
            le::lemma_u16_same(b3, b4, h + 2 * k, h + 2 * k);
            if k < pos {
                le::lemma_u16_same(b2, b3, h + 2 * k, h + 2 * k);
                assert(le::u16_at(b2, h + 2 * k) == le::u16_at(b1, h + 2 * k));
                assert(le::u16_at(b1, h + 2 * k) == le::u16_at(b0, h + 2 * k));
            } else if k > pos {
                le::lemma_u16_same(b2, b3, h + 2 * k, h + 2 * k);
                assert(le::u16_at(b2, h + 2 * k) == le::u16_at(b1, h + 2 * k - 2));
                assert(le::u16_at(b1, h + 2 * (k - 1)) == le::u16_at(b0, h + 2 * (k - 1)));
            }
        }
        assert forall|x: int| at <= x < PAGE_SIZE || 8 <= x < h || 0 <= x < 2 implies #[trigger] bf[x] == b1[x] by {
            assert(bf[x] == b4[x]);
            assert(b4[x] == b3[x]);
            assert(b3[x] == b2[x]);
        }
        assert forall|x: int| off <= x < PAGE_SIZE implies bf[x] == b0[x] by {
            assert(bf[x] == b1[x]);
        }
        lemma_insert_layout(leaf, b0, bf, pos as int, c@);
        assert(same_header(leaf, b0, bf)) by {
            assert(bf[0] == b1[0] && bf[1] == b1[1]);
        }
    }
}

/// A page whose slot array got the slot of a new cell below the old ones is well formed.
proof fn lemma_insert_layout(leaf: bool, b0: Seq<u8>, bf: Seq<u8>, pos: int, c: Seq<u8>)
    requires
        page_ok(leaf, b0),
        bf.len() == PAGE_SIZE,
        0 <= pos <= page_count(b0),
        cell_ok(leaf, c),
        used(cells(leaf, b0)) + c.len() + 2 <= page_room(leaf),
        page_count(bf) == page_count(b0) + 1,
        page_data_off(bf) == page_data_off(b0) - c.len(),
        forall|k: int| 0 <= k < page_count(bf) ==> #[trigger] slot(leaf, bf, k) == (if k < pos {
            slot(leaf, b0, k)
        } else if k == pos {
            page_data_off(bf)
        } else {
            slot(leaf, b0, k - 1)
        }),
        forall|x: int| page_data_off(b0) <= x < PAGE_SIZE ==> bf[x] == b0[x],
        forall|x: int| page_data_off(bf) <= x < page_data_off(b0) ==> bf[x] == c[x - page_data_off(bf)],
    ensures
        page_ok(leaf, bf),
        cells(leaf, bf) == cells(leaf, b0).insert(pos, c),
{
    reveal(page_ok);
    let at = page_data_off(bf);
    let n = page_count(b0);
    let old_of = |k: int| if k < pos { k } else { k - 1 };
    lemma_cell_moved(leaf, c, 0, bf, at);
    assert(c.subrange(0, c.len() as int) =~= c);
    assert forall|k: int| 0 <= k < n implies {
        let s = #[trigger] slot(leaf, b0, k);
        &&& cell_len_at(leaf, bf, s) == cell_len_at(leaf, b0, s)
        &&& bf.subrange(s, s + cell_len_at(leaf, bf, s)) == cell_at(leaf, b0, k)
        &&& s >= page_data_off(b0)
    } by {
        let s = slot(leaf, b0, k);
        assert(slot_ok(leaf, b0, s));
        lemma_cell_moved(leaf, b0, s, bf, s);
    }
    assert(cells(leaf, bf) =~= cells(leaf, b0).insert(pos, c)) by {
        assert forall|k: int| 0 <= k <= n implies #[trigger] cells(leaf, bf)[k] == cells(leaf, b0).insert(pos, c)[k] by {
            if k < pos {
                assert(slot(leaf, bf, k) == slot(leaf, b0, k));
            } else if k == pos {
                assert(slot(leaf, bf, k) == at);
            } else {
                assert(slot(leaf, bf, k) == slot(leaf, b0, k - 1));
            }
        }
    }
    lemma_used_insert(cells(leaf, b0), pos, c);
    assert forall|k: int| 0 <= k < page_count(bf) implies slot_ok(leaf, bf, #[trigger] slot(leaf, bf, k)) by {
        if k != pos {
            assert(slot_ok(leaf, b0, slot(leaf, b0, old_of(k))));
        }
    }
    assert forall|i: int, j: int|
        0 <= i < page_count(bf) && 0 <= j < page_count(bf) && i != j implies apart(
        leaf,
        bf,
        #[trigger] slot(leaf, bf, i),
        #[trigger] slot(leaf, bf, j),
    ) by {
        if i != pos {
            assert(slot_ok(leaf, b0, slot(leaf, b0, old_of(i))));
        }
        if j != pos {
            assert(slot_ok(leaf, b0, slot(leaf, b0, old_of(j))));
        }
        if i != pos && j != pos {
            assert(apart(leaf, b0, slot(leaf, b0, old_of(i)), slot(leaf, b0, old_of(j))));
        }
    }
}

/// Takes out the cell of slot `pos`; the cells below it move up to close the gap.
pub fn remove_cell(b: &mut Vec<u8>, leaf: bool, pos: usize)
    requires
        page_ok(leaf, old(b)@),
        pos < page_count(old(b)@),
    ensures
        page_ok(leaf, final(b)@),
        cells(leaf, final(b)@) == cells(leaf, old(b)@).remove(pos as int),
        same_header(leaf, old(b)@, final(b)@),
{
    let ghost b0 = b@;
    let (s, e) = cell_bounds(b, leaf, pos);
    proof {
        reveal(page_ok);
        assert(slot_ok(leaf, b0, slot(leaf, b0, pos as int)));
    }
    let h: usize = if leaf { LEAF_HEADER_SIZE } else { HEADER_SIZE };
    let n: usize = le::rd_u16(b.as_slice(), 2) as usize;
    let off: usize = le::rd_u32(b.as_slice(), 4) as usize;
    let size: usize = e - s;
    let moved: Vec<u8> = le::copy_range(b.as_slice(), off, s);
    le::write_at(b, off + size, moved.as_slice());
    let ghost b1 = b@;
    proof {
        assert forall|k: int| 0 <= k < n implies #[trigger] le::u16_at(b1, h + 2 * k) == le::u16_at(b0, h + 2 * k) by {
            le::lemma_u16_same(b0, b1, h + 2 * k, h + 2 * k);
        }
    }
    let mut j: usize = 0;
    while j + 1 < n
        invariant
            b@.len() == PAGE_SIZE,
            b1.len() == PAGE_SIZE,
            b0.len() == PAGE_SIZE,
            h == page_header(leaf),
            j <= n,
            pos < n,
            j >= n ==> n == 0,
            h + 2 * n <= off,
            off <= s,
            s + size <= PAGE_SIZE,
            forall|x: int| 0 <= x < PAGE_SIZE && !(h <= x < h + 2 * n) ==> b@[x] == b1[x],
            forall|k: int| j <= k < n ==> #[trigger] le::u16_at(b@, h + 2 * k) == le::u16_at(b1, h + 2 * k),
            forall|k: int| 0 <= k < n ==> #[trigger] le::u16_at(b1, h + 2 * k) == le::u16_at(b0, h + 2 * k),
            forall|k: int| 0 <= k < n && k != pos ==> 0 <= #[trigger] slot(leaf, b0, k) < PAGE_SIZE,
            forall|k: int| 0 <= k < n && k != pos && #[trigger] slot(leaf, b0, k) <= s ==> slot(leaf, b0, k) + size
                < PAGE_SIZE,
            forall|k: int| 0 <= k < j ==> #[trigger] slot(leaf, b@, k) == moved_slot(leaf, b0, pos as int, k),
            size == cell_len_at(leaf, b0, slot(leaf, b0, pos as int)),
            s == slot(leaf, b0, pos as int),
        decreases n - j,
    {
        let ghost prev = b@;
        let from: usize = if j < pos { j } else { j + 1 };
        let v: usize = le::rd_u16(b.as_slice(), h + 2 * from) as usize;
        assert(le::u16_at(prev, h + 2 * from) == le::u16_at(b1, h + 2 * from));
        assert(v == slot(leaf, b0, from as int));
        let w: usize = if v <= s { v + size } else { v };
        le::wr_u16(b, h + 2 * j, w as u16);
        j = j + 1;
        proof {
            assert forall|k: int| j <= k < n implies #[trigger] le::u16_at(b@, h + 2 * k) == le::u16_at(b1, h + 2 * k) by {
                le::lemma_u16_same(prev, b@, h + 2 * k, h + 2 * k);
                assert(le::u16_at(prev, h + 2 * k) == le::u16_at(b1, h + 2 * k));
            }
            assert forall|k: int| 0 <= k < j implies #[trigger] slot(leaf, b@, k) == moved_slot(leaf, b0, pos as int, k) by {
                if k < j - 1 {
                    le::lemma_u16_same(prev, b@, h + 2 * k, h + 2 * k);
                    assert(slot(leaf, prev, k) == moved_slot(leaf, b0, pos as int, k));
                }
            }
        }
    }
    let ghost b2 = b@;
    le::wr_u16(b, 2, (n - 1) as u16);
    let ghost b3 = b@;
    le::wr_u32(b, 4, (off + size) as u32);
    proof {
        let bf = b@;
        le::lemma_u16_same(b3, bf, 2, 2);
        assert(page_count(bf) == n - 1);
        assert forall|k: int| 0 <= k < n - 1 implies #[trigger] slot(leaf, bf, k) == moved_slot(leaf, b0, pos as int, k) by {
            le::lemma_u16_same(b2, b3, h + 2 * k, h + 2 * k);
            le::lemma_u16_same(b3, bf, h + 2 * k, h + 2 * k);
            assert(slot(leaf, b2, k) == moved_slot(leaf, b0, pos as int, k));
        }
        assert forall|x: int| off + size <= x < PAGE_SIZE implies bf[x] == (if x < s + size {
            b0[x - size]
        } else {
            b0[x]
        }) by {
            assert(bf[x] == b3[x]);
            assert(b3[x] == b2[x]);
            assert(b2[x] == b1[x]);
        }
        assert(same_header(leaf, b0, bf)) by {
            assert forall|x: int| 8 <= x < h || 0 <= x < 2 implies #[trigger] bf[x] == b0[x] by {
                assert(bf[x] == b3[x]);
                assert(b3[x] == b2[x]);
                assert(b2[x] == b1[x]);
            }
            assert(bf[0] == b0[0] && bf[1] == b0[1]);
        }
        lemma_remove_layout(leaf, b0, bf, pos as int);
    }
}

/// What slot `k` holds once the cell of slot `pos` is gone.
spec fn moved_slot(leaf: bool, b: Seq<u8>, pos: int, k: int) -> int {
    let v = slot(leaf, b, if k < pos { k } else { k + 1 });
    let s = slot(leaf, b, pos);
    if v <= s {
        v + cell_len_at(leaf, b, s)
    } else {
        v
    }
}

proof fn lemma_remove_layout(leaf: bool, b0: Seq<u8>, bf: Seq<u8>, pos: int)
    requires
        page_ok(leaf, b0),
        bf.len() == PAGE_SIZE,
        0 <= pos < page_count(b0),
        page_count(bf) == page_count(b0) - 1,
        page_data_off(bf) == page_data_off(b0) + cell_len_at(leaf, b0, slot(leaf, b0, pos)),
        forall|k: int| 0 <= k < page_count(bf) ==> #[trigger] slot(leaf, bf, k) == moved_slot(leaf, b0, pos, k),
        forall|x: int|
            page_data_off(bf) <= x < PAGE_SIZE ==> #[trigger] bf[x] == (if x < slot(leaf, b0, pos) + cell_len_at(
                leaf,
                b0,
                slot(leaf, b0, pos),
            ) {
                b0[x - cell_len_at(leaf, b0, slot(leaf, b0, pos))]
            } else {
                b0[x]
            }),
    ensures
        page_ok(leaf, bf),
        cells(leaf, bf) == cells(leaf, b0).remove(pos),
{
    reveal(page_ok);
    let s = slot(leaf, b0, pos);
    let n = page_count(b0);
    let old_of = |k: int| if k < pos { k } else { k + 1 };
    assert forall|k: int| 0 <= k < n - 1 implies moved_ok(leaf, b0, bf, pos, k, #[trigger] slot(leaf, bf, k)) by {
        lemma_remove_one(leaf, b0, bf, pos, k);
    }
    assert(cells(leaf, bf) =~= cells(leaf, b0).remove(pos)) by {
        assert forall|k: int| 0 <= k < n - 1 implies #[trigger] cells(leaf, bf)[k] == cells(leaf, b0).remove(pos)[k] by {
            assert(moved_ok(leaf, b0, bf, pos, k, slot(leaf, bf, k)));
        }
    }
    lemma_used_remove(cells(leaf, b0), pos);
    assert forall|i: int, j: int|
        0 <= i < page_count(bf) && 0 <= j < page_count(bf) && i != j implies apart(
        leaf,
        bf,
        #[trigger] slot(leaf, bf, i),
        #[trigger] slot(leaf, bf, j),
    ) by {
        assert(apart(leaf, b0, slot(leaf, b0, old_of(i)), slot(leaf, b0, old_of(j))));
        assert(moved_ok(leaf, b0, bf, pos, i, slot(leaf, bf, i)));
        assert(moved_ok(leaf, b0, bf, pos, j, slot(leaf, bf, j)));
    }
    assert forall|i: int| 0 <= i < page_count(bf) implies slot_ok(leaf, bf, #[trigger] slot(leaf, bf, i)) by {
        assert(moved_ok(leaf, b0, bf, pos, i, slot(leaf, bf, i)));
    }
}

/// The cell of slot `k` is the old one, moved up where it lay below the gap.
spec fn moved_ok(leaf: bool, b0: Seq<u8>, bf: Seq<u8>, pos: int, k: int, w: int) -> bool {
    let s = slot(leaf, b0, pos);
    let old_k = if k < pos {
        k
    } else {
        k + 1
    };
    let v = slot(leaf, b0, old_k);
    &&& w == slot(leaf, bf, k)
    &&& w == moved_slot(leaf, b0, pos, k)
    &&& cell_len_at(leaf, bf, w) == cell_len_at(leaf, b0, v)
    &&& cell_at(leaf, bf, k) == cell_at(leaf, b0, old_k)
    &&& slot_ok(leaf, bf, w)
    &&& v <= s ==> v + cell_len_at(leaf, b0, v) <= s
    &&& v > s ==> s + cell_len_at(leaf, b0, s) <= v
}

proof fn lemma_remove_one(leaf: bool, b0: Seq<u8>, bf: Seq<u8>, pos: int, k: int)
    requires
        page_ok(leaf, b0),
        bf.len() == PAGE_SIZE,
        0 <= pos < page_count(b0),
        0 <= k < page_count(b0) - 1,
        page_count(bf) == page_count(b0) - 1,
        page_data_off(bf) == page_data_off(b0) + cell_len_at(leaf, b0, slot(leaf, b0, pos)),
        slot(leaf, bf, k) == moved_slot(leaf, b0, pos, k),
        forall|x: int|
            page_data_off(bf) <= x < PAGE_SIZE ==> #[trigger] bf[x] == (if x < slot(leaf, b0, pos) + cell_len_at(
                leaf,
                b0,
                slot(leaf, b0, pos),
            ) {
                b0[x - cell_len_at(leaf, b0, slot(leaf, b0, pos))]
            } else {
                b0[x]
            }),
    ensures
        moved_ok(leaf, b0, bf, pos, k, slot(leaf, bf, k)),
{
    let s = slot(leaf, b0, pos);
    let size = cell_len_at(leaf, b0, s);
    let old_k = if k < pos {
        k
    } else {
        k + 1
    };
    let v = slot(leaf, b0, old_k);
    let w = slot(leaf, bf, k);
    assert(b0.len() == PAGE_SIZE && slot_ok(leaf, b0, v) && slot_ok(leaf, b0, s) && apart(leaf, b0, v, s)) by {
        reveal(page_ok);
    }
    assert forall|i: int| 0 <= i < cell_len_at(leaf, b0, v) implies #[trigger] bf[w + i] == b0[v + i] by {
        if v <= s {
            assert(w == v + size);
            assert(bf[w + i] == b0[w + i - size]);
        } else {
            assert(w == v);
        }
    }
    lemma_cell_moved(leaf, b0, v, bf, w);
}

/// The key of a leaf cell, or the separator of an internal one.
pub open spec fn key_of(leaf: bool, c: Seq<u8>) -> Seq<u8> {
    c.subrange(cell_header(leaf), cell_header(leaf) + le::u16_at(c, 0))
}

/// The value length field of a leaf cell.
pub open spec fn raw_of(c: Seq<u8>) -> u32 {
    le::u32_at(c, 2)
}

/// What follows the key of a leaf cell.
pub open spec fn payload_of(c: Seq<u8>) -> Seq<u8> {
    c.subrange(6 + le::u16_at(c, 0), c.len() as int)
}

/// The first page of a value kept outside the page.
pub open spec fn extent_of(c: Seq<u8>) -> u64 {
    le::u64_at(payload_of(c), 0)
}

/// The child of an internal cell.
pub open spec fn child_of(c: Seq<u8>) -> u64 {
    le::u64_at(c, 2)
}

/// Keys rise strictly from slot to slot.
pub open spec fn keys_sorted(leaf: bool, cs: Seq<Seq<u8>>) -> bool {
    forall|i: int, j: int|
        0 <= i < j < cs.len() ==> lex::lt(key_of(leaf, #[trigger] cs[i]), key_of(leaf, #[trigger] cs[j]))
}

/// The bytes of a leaf cell.
pub open spec fn leaf_cell(key: Seq<u8>, raw: u32, payload: Seq<u8>) -> Seq<u8> {
    le::le2(key.len() as u16) + le::le4(raw) + key + payload
}

/// The bytes of an internal cell.
pub open spec fn inner_cell(sep: Seq<u8>, child: u64) -> Seq<u8> {
    le::le2(sep.len() as u16) + le::le8(child) + sep
}

/// A leaf cell gives back the parts it was built from.
pub proof fn lemma_leaf_cell(key: Seq<u8>, raw: u32, payload: Seq<u8>)
    requires
        key.len() <= u16::MAX,
        payload.len() == payload_len(raw),
    ensures
        cell_ok(true, leaf_cell(key, raw, payload)),
        key_of(true, leaf_cell(key, raw, payload)) == key,
        raw_of(leaf_cell(key, raw, payload)) == raw,
        payload_of(leaf_cell(key, raw, payload)) == payload,
        leaf_cell(key, raw, payload).len() == 6 + key.len() + payload.len(),
{
    let c = leaf_cell(key, raw, payload);
    assert(c[0] == le::le2(key.len() as u16)[0]);
    assert(c[1] == le::le2(key.len() as u16)[1]);
    le::lemma_le2(c, 0, key.len() as u16);
    assert forall|i: int| 0 <= i < 4 implies #[trigger] le::le4(raw)[i] == c[2 + i] by {}
    le::lemma_le4(c, 2, raw);
    assert(key_of(true, c) =~= key);
    assert(payload_of(c) =~= payload);
}

/// An internal cell gives back the parts it was built from.
pub proof fn lemma_inner_cell(sep: Seq<u8>, child: u64)
    requires
        sep.len() <= u16::MAX,
    ensures
        cell_ok(false, inner_cell(sep, child)),
        key_of(false, inner_cell(sep, child)) == sep,
        child_of(inner_cell(sep, child)) == child,
        inner_cell(sep, child).len() == 10 + sep.len(),
{
    let c = inner_cell(sep, child);
    assert(c[0] == le::le2(sep.len() as u16)[0]);
    assert(c[1] == le::le2(sep.len() as u16)[1]);
    le::lemma_le2(c, 0, sep.len() as u16);
    assert forall|i: int| 0 <= i < 8 implies #[trigger] le::le8(child)[i] == c[2 + i] by {}
    le::lemma_le8(c, 2, child);
    assert(key_of(false, c) =~= sep);
}

/// Builds a leaf cell.
pub fn write_leaf_entry_raw(key: &[u8], raw: u32, payload: &[u8]) -> (c: Vec<u8>)
    requires
        key@.len() <= u16::MAX,
        payload@.len() == payload_len(raw),
    ensures
        c@ == leaf_cell(key@, raw, payload@),
{
    let mut c: Vec<u8> = Vec::new();
    le::push_u16(&mut c, key.len() as u16);
    le::push_u32(&mut c, raw);
    le::push_bytes(&mut c, key);
    le::push_bytes(&mut c, payload);
    assert(c@ =~= leaf_cell(key@, raw, payload@));
    c
}

/// Builds an internal cell.
pub fn write_internal_entry(sep: &[u8], child: u64) -> (c: Vec<u8>)
    requires
        sep@.len() <= u16::MAX,
    ensures
        c@ == inner_cell(sep@, child),
{
    let mut c: Vec<u8> = Vec::new();
    le::push_u16(&mut c, sep.len() as u16);
    le::push_u64(&mut c, child);
    le::push_bytes(&mut c, sep);
    assert(c@ =~= inner_cell(sep@, child));
    c
}

/// A copy of the key of a cell.
pub fn copy_key(c: &[u8], leaf: bool) -> (k: Vec<u8>)
    requires
        cell_ok(leaf, c@),
    ensures
        k@ == key_of(leaf, c@),
{
    let n: usize = le::rd_u16(c, 0) as usize;
    let h: usize = if leaf { 6 } else { 10 };
    le::copy_range(c, h, h + n)
}

/// The child of internal cell `i`.
pub fn read_child(b: &Vec<u8>, i: usize) -> (p: u64)
    requires
        page_ok(false, b@),
        i < page_count(b@),
    ensures
        p == child_of(cells(false, b@)[i as int]),
{
    let (s, e) = cell_bounds(b, false, i);
    proof {
        lemma_page_cells(false, b@);
        let c = cells(false, b@)[i as int];
        assert forall|j: int| 0 <= j < 8 implies #[trigger] b@[s + 2 + j] == c[2 + j] by {
            assert(c[2 + j] == b@[s + (2 + j)]);
        }
        le::lemma_u64_same(b@, c, s + 2, 2);
    }
    le::rd_u64(b.as_slice(), s + 2)
}

/// A copy of the key of slot `i`.
pub fn read_key(b: &Vec<u8>, leaf: bool, i: usize) -> (k: Vec<u8>)
    requires
        page_ok(leaf, b@),
        i < page_count(b@),
    ensures
        k@ == key_of(leaf, cells(leaf, b@)[i as int]),
{
    let c: Vec<u8> = copy_cell(b, leaf, i);
    copy_key(c.as_slice(), leaf)
}

/// Compares the key of slot `i` with `key`.
pub fn compare_slot(b: &Vec<u8>, leaf: bool, i: usize, key: &[u8]) -> (r: lex::Order)
    requires
        page_ok(leaf, b@),
        i < page_count(b@),
    ensures
        match r {
            lex::Order::Less => lex::lt(key_of(leaf, cells(leaf, b@)[i as int]), key@),
            lex::Order::Equal => key_of(leaf, cells(leaf, b@)[i as int]) == key@,
            lex::Order::Greater => lex::lt(key@, key_of(leaf, cells(leaf, b@)[i as int])),
        },
{
    let (s, e) = cell_bounds(b, leaf, i);
    proof {
        lemma_page_cells(leaf, b@);
    }
    let ghost c = cells(leaf, b@)[i as int];
    let n: usize = le::rd_u16(b.as_slice(), s) as usize;
    let h: usize = if leaf { 6 } else { 10 };
    proof {
        le::lemma_u16_same(b@, c, s as int, 0);
        assert(b@.subrange(s + h, s + h + n) =~= key_of(leaf, c));
    }
    lex::compare_bytes(vstd::slice::slice_subrange(b.as_slice(), s + h, s + h + n), key)
}

/// Binary search for `key` among the cells: the first slot whose key does not come before
/// it, and whether that slot holds it.
pub fn find_slot(b: &Vec<u8>, leaf: bool, key: &[u8]) -> (r: (usize, bool))
    requires
        page_ok(leaf, b@),
        keys_sorted(leaf, cells(leaf, b@)),
    ensures
        r.0 <= page_count(b@),
        forall|i: int| 0 <= i < r.0 ==> lex::lt(key_of(leaf, #[trigger] cells(leaf, b@)[i]), key@),
        r.1 ==> r.0 < page_count(b@) && key_of(leaf, cells(leaf, b@)[r.0 as int]) == key@,
        forall|i: int|
            r.0 <= i < page_count(b@) && (r.1 ==> i > r.0) ==> lex::lt(
                key@,
                key_of(leaf, #[trigger] cells(leaf, b@)[i]),
            ),
{
    proof {
        lemma_page_cells(leaf, b@);
        lex::order_laws();
    }
    let n: usize = read_count(b);
    let ghost cs = cells(leaf, b@);
    let mut lo: usize = 0;
    let mut hi: usize = n;
    while lo < hi
        invariant
            lo <= hi <= n,
            n == page_count(b@),
            cs == cells(leaf, b@),
            cs.len() == n,
            page_ok(leaf, b@),
            keys_sorted(leaf, cs),
            forall|i: int| 0 <= i < lo ==> lex::lt(key_of(leaf, #[trigger] cs[i]), key@),
            forall|i: int| hi <= i < n ==> lex::lt(key@, key_of(leaf, #[trigger] cs[i])),
            forall|a: Seq<u8>, b: Seq<u8>, c: Seq<u8>| #[trigger] lex::lt(a, b) && #[trigger] lex::lt(b, c) ==> lex::lt(a, c),
        decreases hi - lo,
    {
        let mid: usize = lo + (hi - lo) / 2;
        let r: lex::Order = compare_slot(b, leaf, mid, key);
        match r {
            lex::Order::Less => {
                assert forall|i: int| 0 <= i < mid + 1 implies lex::lt(key_of(leaf, #[trigger] cs[i]), key@) by {
                    if i < mid {
                        assert(lex::lt(key_of(leaf, cs[i]), key_of(leaf, cs[mid as int])));
                    }
                }
                lo = mid + 1;
            },
            lex::Order::Equal => {
                return (mid, true);
            },
            lex::Order::Greater => {
                assert forall|i: int| mid <= i < n implies lex::lt(key@, key_of(leaf, #[trigger] cs[i])) by {
                    if i > mid {
                        assert(lex::lt(key_of(leaf, cs[mid as int]), key_of(leaf, cs[i])));
                    }
                }
                hi = mid;
            },
        }
    }
    (lo, false)
}

/// The bytes of each vector.
pub open spec fn deep(v: Seq<Vec<u8>>) -> Seq<Seq<u8>> {
    Seq::new(v.len(), |i: int| v[i]@)
}

/// Copies of all cells, in slot order.
pub fn copy_cells(b: &Vec<u8>, leaf: bool) -> (v: Vec<Vec<u8>>)
    requires
        page_ok(leaf, b@),
    ensures
        deep(v@) == cells(leaf, b@),
{
    proof {
        lemma_page_cells(leaf, b@);
    }
    let n: usize = read_count(b);
    let mut v: Vec<Vec<u8>> = Vec::new();
    let mut i: usize = 0;
    while i < n
        invariant
            i <= n,
            n == page_count(b@),
            page_ok(leaf, b@),
            v@.len() == i,
            forall|j: int| 0 <= j < i ==> (#[trigger] v@[j])@ == cells(leaf, b@)[j],
        decreases n - i,
    {
        let c: Vec<u8> = copy_cell(b, leaf, i);
        v.push(c);
        i = i + 1;
    }
    assert(deep(v@) =~= cells(leaf, b@));
    v
}

/// Longer prefixes take no less room.
pub proof fn lemma_used_mono(cs: Seq<Seq<u8>>, a: int, b: int)
    requires
        0 <= a <= b <= cs.len(),
    ensures
        used(cs.take(a)) <= used(cs.take(b)),
        used(cs.take(b)) - used(cs.take(a)) == used(cs.subrange(a, b)),
{
    assert(cs.take(b) =~= cs.take(a) + cs.subrange(a, b));
    lemma_used_append(cs.take(a), cs.subrange(a, b));
    lemma_used_bound(cs.subrange(a, b));
}

/// One more cell in a prefix.
pub proof fn lemma_used_step(cs: Seq<Seq<u8>>, a: int)
    requires
        0 <= a < cs.len(),
    ensures
        used(cs.take(a + 1)) == used(cs.take(a)) + cs[a].len() + 2,
{
    assert(cs.take(a + 1).drop_last() =~= cs.take(a));
}

/// The cut that leaves about half of the bytes on each side: the shortest prefix that takes
/// at least half of the room, short of the last cell.
pub open spec fn is_midpoint(cs: Seq<Seq<u8>>, m: int) -> bool {
    let half = used(cs) / 2;
    &&& 1 <= m < cs.len()
    &&& m > 1 ==> used(cs.take(m - 1)) < half
    &&& m < cs.len() - 1 ==> used(cs.take(m)) >= half
}

/// The sum of the room that the cells take.
pub fn room_taken(order: &Vec<Vec<u8>>) -> (n: usize)
    requires
        used(deep(order@)) <= 0xffff,
    ensures
        n == used(deep(order@)),
{
    let ghost cs = deep(order@);
    let mut total: usize = 0;
    let mut j: usize = 0;
    assert(cs.take(0) =~= Seq::<Seq<u8>>::empty());
    while j < order.len()
        invariant
            0 <= j <= order@.len(),
            cs == deep(order@),
            used(cs) <= 0xffff,
            total == used(cs.take(j as int)),
        decreases order@.len() - j,
    {
        proof {
            lemma_used_step(cs, j as int);
            lemma_used_mono(cs, j + 1, cs.len() as int);
            assert(cs.take(cs.len() as int) =~= cs);
        }
        assert(cs[j as int] == order@[j as int]@);
        assert(order@[j as int]@.len() == order@[j as int].len());
        total = total + (order[j].len() + 2);
        j = j + 1;
    }
    assert(cs.take(j as int) =~= cs);
    total
}

/// Finds the byte midpoint, with the room that the cells before it take.
pub fn byte_midpoint(order: &Vec<Vec<u8>>, total: usize) -> (r: (usize, usize))
    requires
        order@.len() >= 2,
        total == used(deep(order@)),
        total <= 0xffff,
    ensures
        is_midpoint(deep(order@), r.0 as int),
        r.1 == used(deep(order@).take(r.0 as int)),
{
    let ghost cs = deep(order@);
    let half: usize = total / 2;
    let mut taken: usize = 0;
    let mut j: usize = 0;
    let last: usize = order.len() - 1;
    assert(cs.take(0) =~= Seq::<Seq<u8>>::empty());
    while j < last && (j == 0 || taken < half)
        invariant
            0 <= j <= last,
            last == order@.len() - 1,
            last >= 1,
            cs == deep(order@),
            half == used(cs) / 2,
            used(cs) <= 0xffff,
            taken == used(cs.take(j as int)),
            j > 1 ==> used(cs.take(j - 1)) < half,
        decreases last - j,
    {
        proof {
            lemma_used_step(cs, j as int);
            lemma_used_mono(cs, j + 1, cs.len() as int);
            assert(cs.take(cs.len() as int) =~= cs);
        }
        assert(cs[j as int] == order@[j as int]@);
        taken = taken + (order[j].len() + 2);
        j = j + 1;
    }
    (j, taken)
}

/// Both sides of a cut before cell `m` fit a leaf.
pub open spec fn leaf_cut_fits(cs: Seq<Seq<u8>>, m: int) -> bool {
    &&& 1 <= m < cs.len()
    &&& used(cs.take(m)) <= page_room(true)
    &&& used(cs.skip(m)) <= page_room(true)
}

/// Where a full leaf is cut: at the byte midpoint, or one cell before it where the midpoint
/// leaves a side that does not fit.
pub open spec fn is_leaf_cut(cs: Seq<Seq<u8>>, m: int) -> bool {
    &&& leaf_cut_fits(cs, m)
    &&& is_midpoint(cs, m) || (is_midpoint(cs, m + 1) && !leaf_cut_fits(cs, m + 1))
}

/// Both sides of a cut of internal cells fit a page; the cell at the cut goes to the parent.
pub open spec fn inner_cut_fits(cs: Seq<Seq<u8>>, m: int) -> bool {
    &&& 1 <= m < cs.len()
    &&& used(cs.take(m)) <= page_room(false)
    &&& used(cs.skip(m + 1)) <= page_room(false)
}

/// Where a full internal page is cut: at the byte midpoint, or one cell before it where the
/// midpoint leaves a side that does not fit.
pub open spec fn is_inner_cut(cs: Seq<Seq<u8>>, m: int) -> bool {
    &&& inner_cut_fits(cs, m)
    &&& is_midpoint(cs, m) || (is_midpoint(cs, m + 1) && !inner_cut_fits(cs, m + 1))
}

/// The midpoint is found from any cell on that is not behind it.
proof fn lemma_midpoint_from(cs: Seq<Seq<u8>>, j: int) -> (m: int)
    requires
        1 <= j < cs.len(),
        j > 1 ==> used(cs.take(j - 1)) < used(cs) / 2,
    ensures
        is_midpoint(cs, m),
    decreases cs.len() - j,
{
    if j < cs.len() - 1 && used(cs.take(j)) < used(cs) / 2 {
        lemma_midpoint_from(cs, j + 1)
    } else {
        j
    }
}

/// Either side of a cut of a leaf takes half of the room and one cell more at most, but where no more
/// than two cells stand behind the cut.
pub proof fn leaf_cut_is_balanced(cs: Seq<Seq<u8>>, m: int, most: int)
    requires
        is_leaf_cut(cs, m),
        forall|i: int| 0 <= i < cs.len() ==> (#[trigger] cs[i]).len() + 2 <= most,
    ensures
        used(cs.take(m)) < used(cs) / 2 + most,
        used(cs.skip(m)) <= used(cs) / 2 + 1 + most || m + 2 >= cs.len(),
        used(cs.take(m)) + used(cs.skip(m)) == used(cs),
{
    lemma_midpoint_sides(cs, m, most);
    lemma_used_step(cs, m - 1);
    lemma_used_mono(cs, 0, m - 1);
    lemma_used_mono(cs, m, cs.len() as int);
    lemma_used_step(cs, m);
    lemma_used_mono(cs, m + 1, cs.len() as int);
    assert(cs.take(cs.len() as int) =~= cs);
    assert(cs.take(0) =~= Seq::<Seq<u8>>::empty());
    assert(cs[m - 1].len() + 2 <= most);
}

/// Either side of a cut of an internal page takes half of the room and one cell more at most, but where
/// no more than two cells stand behind the cut. The cell at the cut goes up.
pub proof fn inner_cut_is_balanced(cs: Seq<Seq<u8>>, m: int, most: int)
    requires
        is_inner_cut(cs, m),
        forall|i: int| 0 <= i < cs.len() ==> (#[trigger] cs[i]).len() + 2 <= most,
    ensures
        used(cs.take(m)) < used(cs) / 2 + most,
        used(cs.skip(m + 1)) <= used(cs) / 2 + 1 + most || m + 2 >= cs.len(),
        used(cs.take(m)) + cs[m].len() + 2 + used(cs.skip(m + 1)) == used(cs),
{
    lemma_midpoint_sides(cs, m, most);
    lemma_used_step(cs, m);
    lemma_used_mono(cs, m + 1, cs.len() as int);
    assert(cs.take(cs.len() as int) =~= cs);
    assert(cs.subrange(m + 1, cs.len() as int) =~= cs.skip(m + 1));
    assert(cs[m].len() + 2 <= most);
}

proof fn lemma_midpoint_sides(cs: Seq<Seq<u8>>, m: int, most: int)
    requires
        1 <= m < cs.len(),
        is_midpoint(cs, m) || is_midpoint(cs, m + 1),
        forall|i: int| 0 <= i < cs.len() ==> (#[trigger] cs[i]).len() + 2 <= most,
    ensures
        used(cs.take(m)) < used(cs) / 2 + most,
        used(cs.skip(m)) <= used(cs) / 2 + 1 + most || m + 2 >= cs.len(),
        used(cs.take(m)) + used(cs.skip(m)) == used(cs),
{
    lemma_used_step(cs, m - 1);
    lemma_used_step(cs, m);
    lemma_used_mono(cs, 0, m - 1);
    lemma_used_mono(cs, m, cs.len() as int);
    lemma_used_mono(cs, m + 1, cs.len() as int);
    assert(cs.take(cs.len() as int) =~= cs);
    assert(cs.take(0) =~= Seq::<Seq<u8>>::empty());
    assert(cs.subrange(m, cs.len() as int) =~= cs.skip(m));
    assert(cs[m - 1].len() + 2 <= most);
    assert(cs[m].len() + 2 <= most);
}

/// Where no cell takes more than a third of a leaf, cells that one cell has made too many for a
/// leaf are cut at their byte midpoint.
pub proof fn small_cells_are_cut_in_the_middle(cs: Seq<Seq<u8>>, most: int) -> (m: int)
    requires
        cs.len() >= 2,
        forall|i: int| 0 <= i < cs.len() ==> (#[trigger] cs[i]).len() + 2 <= most,
        3 * most <= page_room(true),
        used(cs) <= page_room(true) + most,
    ensures
        is_midpoint(cs, m),
        is_leaf_cut(cs, m),
{
    let m = lemma_midpoint_from(cs, 1);
    lemma_used_step(cs, m - 1);
    lemma_used_mono(cs, 0, m - 1);
    lemma_used_mono(cs, m, cs.len() as int);
    assert(cs.take(cs.len() as int) =~= cs);
    assert(cs.take(0) =~= Seq::<Seq<u8>>::empty());
    assert(cs.subrange(m, cs.len() as int) =~= cs.skip(m));
    assert(cs[m - 1].len() + 2 <= most);
    if m == cs.len() - 1 {
        lemma_used_step(cs, m);
        assert(cs[m].len() + 2 <= most);
    }
    m
}

/// A cut after which both sides fit a leaf: the byte midpoint, or the cell before it.
pub fn leaf_cut(order: &Vec<Vec<u8>>, total: usize) -> (r: Option<usize>)
    requires
        order@.len() >= 2,
        total == used(deep(order@)),
        total <= 2 * page_room(true),
        forall|i: int| 0 <= i < order@.len() ==> (#[trigger] deep(order@)[i]).len() + 2 <= page_room(true),
    ensures
        match r {
            Some(m) => is_leaf_cut(deep(order@), m as int),
            None => forall|m: int| !#[trigger] leaf_cut_fits(deep(order@), m),
        },
{
    let ghost cs = deep(order@);
    let (m, taken) = byte_midpoint(order, total);
    proof {
        lemma_used_mono(cs, m as int, cs.len() as int);
        assert(cs.take(cs.len() as int) =~= cs);
        assert(cs.subrange(m as int, cs.len() as int) =~= cs.skip(m as int));
        lemma_used_step(cs, m - 1);
        if m == cs.len() - 1 {
            lemma_used_step(cs, m as int);
        }
        assert(cs.take(0) =~= Seq::<Seq<u8>>::empty());
        assert(cs[m - 1].len() + 2 <= page_room(true));
        assert(cs[m as int].len() + 2 <= page_room(true));
    }
    let room: usize = PAGE_SIZE - LEAF_HEADER_SIZE;
    if taken <= room {
        return Some(m);
    }
    let shorter: usize = taken - (order[m - 1].len() + 2);
    proof {
        assert(cs[m - 1] == order@[m - 1]@);
        lemma_used_mono(cs, m - 1, cs.len() as int);
        assert(cs.subrange(m - 1, cs.len() as int) =~= cs.skip(m - 1));
    }
    if total - shorter <= room {
        return Some(m - 1);
    }
    assert forall|j: int| !#[trigger] leaf_cut_fits(cs, j) by {
        if leaf_cut_fits(cs, j) {
            lemma_used_mono(cs, j, cs.len() as int);
            assert(cs.subrange(j, cs.len() as int) =~= cs.skip(j));
            if j >= m {
                lemma_used_mono(cs, m as int, j);
            } else {
                lemma_used_mono(cs, j, m - 1);
            }
        }
    }
    None
}

/// A cut of internal cells after which both sides fit a page: the byte midpoint, or the cell
/// before it. The cell at the cut goes to the parent.
pub fn internal_cut(order: &Vec<Vec<u8>>, total: usize) -> (m: usize)
    requires
        order@.len() >= 2,
        total == used(deep(order@)),
        page_room(false) < total <= 2 * page_room(false),
        forall|i: int| 0 <= i < order@.len() ==> (#[trigger] deep(order@)[i]).len() + 2 <= page_room(false),
    ensures
        is_inner_cut(deep(order@), m as int),
{
    let ghost cs = deep(order@);
    let (m, taken) = byte_midpoint(order, total);
    proof {
        assert(cs.take(cs.len() as int) =~= cs);
        lemma_used_step(cs, m - 1);
        lemma_used_step(cs, m as int);
        lemma_used_mono(cs, m + 1, cs.len() as int);
        lemma_used_mono(cs, m as int, cs.len() as int);
        assert(cs.subrange(m + 1, cs.len() as int) =~= cs.skip(m + 1));
        assert(cs.subrange(m as int, cs.len() as int) =~= cs.skip(m as int));
        assert(cs.take(0) =~= Seq::<Seq<u8>>::empty());
        assert(cs[m - 1].len() + 2 <= page_room(false));
        assert(cs[m as int].len() + 2 <= page_room(false));
    }
    if taken <= PAGE_SIZE - HEADER_SIZE {
        m
    } else {
        m - 1
    }
}

/// Replacing cells by others of the same length takes the same room.
pub proof fn lemma_used_update(cs: Seq<Seq<u8>>, i: int, c: Seq<u8>)
    requires
        0 <= i < cs.len(),
        c.len() == cs[i].len(),
    ensures
        used(cs.update(i, c)) == used(cs),
    decreases cs.len(),
{
    let r = cs.update(i, c);
    if i == cs.len() - 1 {
        assert(r.drop_last() =~= cs.drop_last());
    } else {
        assert(r.drop_last() =~= cs.drop_last().update(i, c));
        lemma_used_update(cs.drop_last(), i, c);
    }
}

/// Overwrites the value of slot `i` by one of the same length.
pub fn overwrite_payload(b: &mut Vec<u8>, i: usize, w: &[u8])
    requires
        page_ok(true, old(b)@),
        i < page_count(old(b)@),
        raw_of(cells(true, old(b)@)[i as int]) < OVFL_FLAG,
        w@.len() == raw_of(cells(true, old(b)@)[i as int]),
    ensures
        page_ok(true, final(b)@),
        cells(true, final(b)@) == cells(true, old(b)@).update(
            i as int,
            leaf_cell(
                key_of(true, cells(true, old(b)@)[i as int]),
                raw_of(cells(true, old(b)@)[i as int]),
                w@,
            ),
        ),
        same_header(true, old(b)@, final(b)@),
{
    let ghost a = b@;
    let ghost cs = cells(true, a);
    let ghost c = cs[i as int];
    let (s, e) = cell_bounds(b, true, i);
    proof {
        lemma_page_cells(true, a);
        le::lemma_u16_same(a, c, s as int, 0);
        reveal(page_ok);
        assert(slot_ok(true, a, slot(true, a, i as int)));
    }
    let klen: usize = le::rd_u16(b.as_slice(), s) as usize;
    let at: usize = s + 6 + klen;
    le::write_at(b, at, w);
    proof {
        let r = b@;
        let c2 = leaf_cell(key_of(true, c), raw_of(c), w@);
        lemma_leaf_cell(key_of(true, c), raw_of(c), w@);
        assert(key_of(true, c).len() == klen);
        le::lemma_u16_same(a, r, 2, 2);
        assert forall|x: int| 0 <= x < 4 implies #[trigger] a[4 + x] == r[4 + x] by {}
        le::lemma_u32_same(a, r, 4, 4);
        assert forall|k: int| 0 <= k < page_count(a) implies #[trigger] slot(true, r, k) == slot(true, a, k) by {
            assert(slot_ok(true, a, slot(true, a, k)));
            le::lemma_u16_same(a, r, 24 + 2 * k, 24 + 2 * k);
        }
        lemma_overwritten(a, r, i as int, w@);
    }
}

proof fn lemma_overwritten(a: Seq<u8>, r: Seq<u8>, i: int, w: Seq<u8>)
    requires
        page_ok(true, a),
        r.len() == PAGE_SIZE,
        0 <= i < page_count(a),
        page_count(r) == page_count(a),
        page_data_off(r) == page_data_off(a),
        raw_of(cells(true, a)[i]) < OVFL_FLAG,
        w.len() == raw_of(cells(true, a)[i]),
        forall|k: int| 0 <= k < page_count(a) ==> #[trigger] slot(true, r, k) == slot(true, a, k),
        r == le::splice(a, slot(true, a, i) + 6 + le::u16_at(a, slot(true, a, i)), w),
    ensures
        page_ok(true, r),
        cells(true, r) == cells(true, a).update(
            i,
            leaf_cell(key_of(true, cells(true, a)[i]), raw_of(cells(true, a)[i]), w),
        ),
{
    lemma_page_cells(true, a);
    let cs = cells(true, a);
    let c = cs[i];
    let s = slot(true, a, i);
    let n = le::u16_at(a, s) as int;
    assert(slot_ok(true, a, s)) by {
        reveal(page_ok);
    }
    le::lemma_u16_same(a, c, s, 0);
    assert forall|x: int| 0 <= x < 4 implies #[trigger] a[s + 2 + x] == c[2 + x] by {}
    le::lemma_u32_same(a, c, s + 2, 2);
    let c2 = leaf_cell(key_of(true, c), raw_of(c), w);
    lemma_leaf_cell(key_of(true, c), raw_of(c), w);
    le::lemma_u16_same(a, r, s, s);
    assert forall|x: int| 0 <= x < 4 implies #[trigger] a[s + 2 + x] == r[s + 2 + x] by {}
    le::lemma_u32_same(a, r, s + 2, s + 2);
    assert(cell_at(true, r, i) =~= c2) by {
        let d = cell_at(true, r, i);
        assert(slot(true, r, i) == s);
        assert(d.len() == c2.len());
        assert forall|x: int| 0 <= x < d.len() implies #[trigger] d[x] == c2[x] by {
            assert(d[x] == r[s + x]);
            if x < 2 {
                le::lemma_le2_inverse(a, s);
            } else if x < 6 {
                le::lemma_le4_inverse(a, s + 2);
            } else if x < 6 + n {
                assert(c2[x] == key_of(true, c)[x - 6]);
                assert(c[x] == a[s + x]);
            } else {
                assert(c2[x] == w[x - 6 - n]);
            }
        }
    }
    assert forall|k: int| 0 <= k < page_count(a) && k != i implies {
        let t = #[trigger] slot(true, a, k);
        &&& cell_len_at(true, r, t) == cell_len_at(true, a, t)
        &&& cell_at(true, r, k) == cell_at(true, a, k)
    } by {
        let t = slot(true, a, k);
        assert(slot(true, r, k) == t);
        assert(slot_ok(true, a, t) && apart(true, a, s, t)) by {
            reveal(page_ok);
        }
        lemma_cell_moved(true, a, t, r, t);
    }
    assert(cells(true, r) =~= cs.update(i, c2)) by {
        assert forall|k: int| 0 <= k < page_count(a) implies #[trigger] cells(true, r)[k] == cs.update(i, c2)[k] by {
            let t = slot(true, a, k);
        }
    }
    lemma_used_update(cs, i, c2);
    assert(page_ok(true, r)) by {
        reveal(page_ok);
        assert forall|k: int| 0 <= k < page_count(r) implies slot_ok(true, r, #[trigger] slot(true, r, k)) by {
            assert(slot_ok(true, a, slot(true, a, k)));
        }
        assert forall|x: int, y: int|
            0 <= x < page_count(r) && 0 <= y < page_count(r) && x != y implies apart(
            true,
            r,
            #[trigger] slot(true, r, x),
            #[trigger] slot(true, r, y),
        ) by {
            assert(apart(true, a, slot(true, a, x), slot(true, a, y)));
        }
    }
}

pub proof fn lemma_used_one(c: Seq<u8>)
    ensures
        used(seq![c]) == c.len() + 2,
{
    assert(seq![c].drop_last() =~= Seq::<Seq<u8>>::empty());
    assert(seq![c].last() == c);
    assert(used(Seq::<Seq<u8>>::empty()) == 0);
}

/// Where no cut of the old cells and the new one fits, the old cells alone can be cut where
/// the new one belongs.
pub proof fn lemma_no_cut(cs: Seq<Seq<u8>>, pos: int, c: Seq<u8>)
    requires
        0 <= pos <= cs.len(),
        cs.len() >= 1,
        used(cs) <= page_room(true),
        c.len() + 2 <= page_room(true),
        forall|m: int| !#[trigger] leaf_cut_fits(cs.insert(pos, c), m),
    ensures
        0 < pos < cs.len(),
        leaf_cut_fits(cs, pos),
{
    let order = cs.insert(pos, c);
    let n = cs.len() as int;
    lemma_used_one(c);
    if pos == 0 {
        assert(order.take(1) =~= seq![c]);
        assert(order.skip(1) =~= cs);
        assert(leaf_cut_fits(order, 1));
    }
    if pos == n {
        assert(order.take(n) =~= cs);
        assert(order.skip(n) =~= seq![c]);
        assert(leaf_cut_fits(order, n));
    }
    lemma_used_mono(cs, pos, n);
    lemma_used_mono(cs, 0, pos);
    assert(cs.take(n) =~= cs);
    assert(cs.take(0) =~= Seq::<Seq<u8>>::empty());
    assert(cs.subrange(pos, n) =~= cs.skip(pos));
    lemma_used_bound(cs.take(pos));
    lemma_used_bound(cs.skip(pos));
}

/// Copies of all cells with a new one before slot `pos`.
pub fn order_with(b: &Vec<u8>, leaf: bool, pos: usize, c: &Vec<u8>) -> (order: Vec<Vec<u8>>)
    requires
        page_ok(leaf, b@),
        pos <= page_count(b@),
    ensures
        deep(order@) == cells(leaf, b@).insert(pos as int, c@),
{
    proof {
        lemma_page_cells(leaf, b@);
    }
    let mut order: Vec<Vec<u8>> = copy_cells(b, leaf);
    let copy: Vec<u8> = le::copy_range(c.as_slice(), 0, c.len());
    assert(copy@ =~= c@);
    let ghost before = order@;
    let ghost cs = cells(leaf, b@);
    order.insert(pos, copy);
    proof {
        assert(deep(before) == cs);
        assert forall|i: int| 0 <= i < order@.len() implies #[trigger] deep(order@)[i] == cs.insert(pos as int, c@)[i] by {
            if i < pos {
                assert(deep(before)[i] == before[i]@);
            } else if i > pos {
                assert(deep(before)[i - 1] == before[i - 1]@);
            }
        }
        assert(deep(order@) =~= cs.insert(pos as int, c@));
    }
    order
}

/// The separator between cells `mid - 1` and `mid`.
pub fn cut_separator(order: &Vec<Vec<u8>>, mid: usize) -> (sep: Vec<u8>)
    requires
        1 <= mid < order@.len(),
        keys_sorted(true, deep(order@)),
        cell_ok(true, deep(order@)[mid - 1]),
        cell_ok(true, deep(order@)[mid as int]),
    ensures
        sep@ == lex::separator(key_of(true, deep(order@)[mid - 1]), key_of(true, deep(order@)[mid as int])),
        lex::lt(key_of(true, deep(order@)[mid - 1]), sep@),
        lex::le(sep@, key_of(true, deep(order@)[mid as int])),
        sep@.len() <= key_of(true, deep(order@)[mid as int]).len(),
{
    proof {
        assert(deep(order@)[mid - 1] == order@[mid - 1]@);
        assert(deep(order@)[mid as int] == order@[mid as int]@);
        assert(lex::lt(key_of(true, deep(order@)[mid - 1]), key_of(true, deep(order@)[mid as int])));
        lex::separator_between(key_of(true, deep(order@)[mid - 1]), key_of(true, deep(order@)[mid as int]));
    }
    let lk: Vec<u8> = copy_key(order[mid - 1].as_slice(), true);
    let rk: Vec<u8> = copy_key(order[mid].as_slice(), true);
    lex::truncated_separator(lk.as_slice(), rk.as_slice())
}

} // verus!
