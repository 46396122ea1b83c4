//! The pages of a hash table, and how entries are packed into them.
//!
//! A page is `[count u16][overflow u64][entry]*`, an entry
//! `[hash u64][key length u16][value length u32][key][value]`.

use crate::utils::le;
use vstd::prelude::*;

verus! {

pub const PAGE_SIZE: usize = 4096;

/// The bytes of a page's count and of the offset of the page that follows in the chain.
pub const HEADER_SIZE: usize = 10;

/// The bytes of an entry's hash and lengths.
pub const ENTRY_HEADER: usize = 14;

/// An entry as it stands in a page.
pub struct Item {
    pub hash: u64,
    pub key: Seq<u8>,
    pub value: Seq<u8>,
}

/// An entry that was read from a page.
pub struct Entry {
    pub hash: u64,
    pub key: Vec<u8>,
    pub value: Vec<u8>,
}

impl View for Entry {
    type V = Item;

    open spec fn view(&self) -> Item {
        Item { hash: self.hash, key: self.key@, value: self.value@ }
    }
}

/// What the entries hold.
pub open spec fn items(es: Seq<Entry>) -> Seq<Item> {
    Seq::new(es.len(), |i: int| es[i]@)
}

/// The bytes that an entry takes.
pub open spec fn size(e: Item) -> int {
    ENTRY_HEADER + e.key.len() + e.value.len()
}

/// The entry fits an empty page.
pub open spec fn fits(e: Item) -> bool {
    HEADER_SIZE + size(e) <= PAGE_SIZE
}

pub open spec fn all_fit(es: Seq<Item>) -> bool {
    forall|i: int| 0 <= i < es.len() ==> fits(#[trigger] es[i])
}

/// A whole entry starts at `pos`.
pub open spec fn entry_at(p: Seq<u8>, pos: int) -> bool {
    &&& pos + ENTRY_HEADER <= p.len()
    &&& pos + ENTRY_HEADER + le::u16_at(p, pos + 8) + le::u32_at(p, pos + 10) <= p.len()
}

/// The entry that starts at `pos`.
pub open spec fn item_at(p: Seq<u8>, pos: int) -> Item {
    let k = le::u16_at(p, pos + 8) as int;
    let v = le::u32_at(p, pos + 10) as int;
    Item {
        hash: le::u64_at(p, pos),
        key: p.subrange(pos + 14, pos + 14 + k),
        value: p.subrange(pos + 14 + k, pos + 14 + k + v),
    }
}

/// The `n` entries from `pos` on, or `None` where one is cut off.
pub open spec fn parse(p: Seq<u8>, pos: int, n: nat) -> Option<Seq<Item>>
    decreases n,
{
    if n == 0 {
        Some(Seq::empty())
    } else if !entry_at(p, pos) {
        None
    } else {
        match parse(p, pos + size(item_at(p, pos)), (n - 1) as nat) {
            Some(rest) => Some(seq![item_at(p, pos)] + rest),
            None => None,
        }
    }
}

/// The bytes that the entries take.
pub open spec fn sizes(es: Seq<Item>) -> int
    decreases es.len(),
{
    if es.len() == 0 {
        0
    } else {
        sizes(es.drop_last()) + size(es.last())
    }
}

/// The entries of a page.
pub open spec fn page_items(p: Seq<u8>) -> Option<Seq<Item>> {
    parse(p, HEADER_SIZE as int, le::u16_at(p, 0) as nat)
}

/// The offset of the page that follows in the chain, or 0.
pub open spec fn overflow(p: Seq<u8>) -> u64 {
    le::u64_at(p, 2)
}

pub proof fn lemma_sizes_one(e: Item)
    ensures
        sizes(seq![e]) == size(e),
{
    reveal_with_fuel(sizes, 2);
    assert(seq![e].last() == e);
}

pub proof fn lemma_sizes_append(a: Seq<Item>, b: Seq<Item>)
    ensures
        sizes(a + b) == sizes(a) + sizes(b),
        sizes(a) >= 0,
    decreases b.len(), a.len(),
{
    if b.len() == 0 {
        assert(a + b =~= a);
        if a.len() > 0 {
            lemma_sizes_append(a.drop_last(), b);
        }
    } else {
        assert((a + b).drop_last() =~= a + b.drop_last());
        lemma_sizes_append(a, b.drop_last());
    }
}

/// What is read ends within the page and takes as many bytes as its entries.
pub proof fn lemma_parse_end(p: Seq<u8>, pos: int, n: nat)
    requires
        parse(p, pos, n) is Some,
        0 <= pos <= p.len(),
    ensures
        parse(p, pos, n)->Some_0.len() == n,
        pos + sizes(parse(p, pos, n)->Some_0) <= p.len(),
        0 <= sizes(parse(p, pos, n)->Some_0),
    decreases n,
{
    if n > 0 {
        let e = item_at(p, pos);
        lemma_parse_end(p, pos + size(e), (n - 1) as nat);
        let rest = parse(p, pos + size(e), (n - 1) as nat)->Some_0;
        lemma_sizes_append(seq![e], rest);
        lemma_sizes_one(e);
    }
}

/// Only the bytes of the entries count for what is read.
pub proof fn lemma_parse_same(p: Seq<u8>, q: Seq<u8>, pos: int, n: nat, end: int)
    requires
        parse(p, pos, n) is Some,
        p.len() == q.len(),
        0 <= pos,
        end == pos + sizes(parse(p, pos, n)->Some_0),
        end <= p.len(),
        forall|i: int| pos <= i < end ==> p[i] == q[i],
    ensures
        parse(q, pos, n) == parse(p, pos, n),
    decreases n,
{
    if n > 0 {
        let e = item_at(p, pos);
        let at = pos + size(e);
        let rest = parse(p, at, (n - 1) as nat)->Some_0;
        lemma_sizes_append(seq![e], rest);
        lemma_sizes_one(e);
        lemma_parse_end(p, at, (n - 1) as nat);
        assert(at <= end);
        le::lemma_u64_same(p, q, pos, pos);
        le::lemma_u16_same(p, q, pos + 8, pos + 8);
        le::lemma_u32_same(p, q, pos + 10, pos + 10);
        assert(item_at(q, pos).key =~= e.key);
        assert(item_at(q, pos).value =~= e.value);
        lemma_parse_same(p, q, at, (n - 1) as nat, end);
    }
}

/// One more entry behind those that are read is read too.
pub proof fn lemma_parse_push(p: Seq<u8>, pos: int, n: nat, e: Item)
    requires
        parse(p, pos, n) is Some,
        0 <= pos <= p.len(),
        entry_at(p, pos + sizes(parse(p, pos, n)->Some_0)),
        item_at(p, pos + sizes(parse(p, pos, n)->Some_0)) == e,
    ensures
        parse(p, pos, n + 1) == Some(parse(p, pos, n)->Some_0.push(e)),
    decreases n,
{
    let done = parse(p, pos, n)->Some_0;
    if n == 0 {
        assert(parse(p, pos + size(e), 0) == Some(Seq::<Item>::empty()));
        assert(seq![e] + Seq::<Item>::empty() =~= done.push(e));
    } else {
        let f = item_at(p, pos);
        let at = pos + size(f);
        let rest = parse(p, at, (n - 1) as nat)->Some_0;
        lemma_sizes_append(seq![f], rest);
        lemma_sizes_one(f);
        lemma_parse_push(p, at, (n - 1) as nat, e);
        assert(seq![f] + rest.push(e) =~= done.push(e));
    }
}

/// Where packing the entries in order has arrived: how many pages, and where the next entry would
/// start in the last of them.
pub open spec fn pack(es: Seq<Item>) -> (int, int)
    decreases es.len(),
{
    if es.len() == 0 {
        (1, HEADER_SIZE as int)
    } else {
        place(pack(es.drop_last()), size(es.last()))
    }
}

/// One more entry of `n` bytes: on the same page where it fits, else on the next.
pub open spec fn place(at: (int, int), n: int) -> (int, int) {
    if at.1 + n <= PAGE_SIZE {
        (at.0, at.1 + n)
    } else {
        (at.0 + 1, HEADER_SIZE + n)
    }
}

/// The entries of groups, one after the other.
pub open spec fn flat(groups: Seq<Seq<Item>>) -> Seq<Item>
    decreases groups.len(),
{
    if groups.len() == 0 {
        Seq::empty()
    } else {
        flat(groups.drop_last()) + groups.last()
    }
}

/// No way to lay the entries out on pages, in their order, takes fewer pages than packing them does:
/// a page has 4096 bytes, 10 of them for its header, and an entry takes 14 beside its key and value.
pub proof fn packing_takes_the_fewest_pages(groups: Seq<Seq<Item>>)
    requires
        groups.len() > 0,
        forall|i: int| 0 <= i < groups.len() ==> 10 + #[trigger] sizes(groups[i]) <= 4096,
    ensures
        pack(flat(groups)).0 <= groups.len(),
{
    lemma_pack_groups(groups);
}

proof fn lemma_pack_groups(groups: Seq<Seq<Item>>)
    requires
        groups.len() > 0,
        forall|i: int| 0 <= i < groups.len() ==> 10 + #[trigger] sizes(groups[i]) <= 4096,
    ensures
        no_further(pack(flat(groups)), (groups.len() as int, HEADER_SIZE + sizes(groups.last()))),
    decreases groups.len(), groups.last().len(),
{
    let before = groups.drop_last();
    let last = groups.last();
    assert(sizes(groups[groups.len() - 1]) == sizes(last));
    if last.len() == 0 {
        assert(flat(groups) =~= flat(before));
        if before.len() == 0 {
            assert(flat(before) =~= Seq::<Item>::empty());
        } else {
            assert forall|i: int| 0 <= i < before.len() implies 10 + #[trigger] sizes(before[i]) <= 4096 by {
                assert(before[i] == groups[i]);
            }
            lemma_pack_groups(before);
        }
    } else {
        let g = last.drop_last();
        let e = last.last();
        let less = before.push(g);
        assert(sizes(last) == sizes(g) + size(e));
        lemma_pack_low(flat(less));
        assert forall|i: int| 0 <= i < less.len() implies 10 + #[trigger] sizes(less[i]) <= 4096 by {
            if i < before.len() {
                assert(less[i] == groups[i]);
            }
        }
        assert(less.drop_last() =~= before);
        lemma_sizes_positive(g);
        lemma_pack_groups(less);
        assert(flat(groups).drop_last() =~= flat(less));
        assert(flat(groups).last() == e);
    }
}

proof fn lemma_sizes_positive(es: Seq<Item>)
    ensures
        sizes(es) >= 0,
    decreases es.len(),
{
    if es.len() > 0 {
        lemma_sizes_positive(es.drop_last());
    }
}

/// `a` is no further than `b`.
pub open spec fn no_further(a: (int, int), b: (int, int)) -> bool {
    a.0 < b.0 || a.0 == b.0 && a.1 <= b.1
}

pub proof fn lemma_pack_step(es: Seq<Item>, i: int)
    requires
        0 <= i < es.len(),
    ensures
        pack(es.take(i + 1)) == place(pack(es.take(i)), size(es[i])),
{
    assert(es.take(i + 1).drop_last() =~= es.take(i));
}

pub proof fn lemma_pack_low(es: Seq<Item>)
    ensures
        pack(es).0 >= 1,
        pack(es).1 >= HEADER_SIZE,
    decreases es.len(),
{
    if es.len() > 0 {
        lemma_pack_low(es.drop_last());
    }
}

/// More entries need no fewer pages.
pub proof fn lemma_pack_grows(es: Seq<Item>, i: int)
    requires
        0 <= i <= es.len(),
    ensures
        no_further(pack(es.take(i)), pack(es)),
    decreases es.len() - i,
{
    if i == es.len() {
        assert(es.take(i) =~= es);
    } else {
        lemma_pack_grows(es, i + 1);
        lemma_pack_step(es, i);
    }
}

/// Without one of the entries no more pages are needed.
pub proof fn lemma_pack_remove(es: Seq<Item>, i: int)
    requires
        0 <= i < es.len(),
    ensures
        no_further(pack(es.remove(i)), pack(es)),
    decreases es.len(),
{
    let last = es.len() - 1;
    if i == last {
        assert(es.remove(i) =~= es.drop_last());
    } else {
        lemma_pack_remove(es.drop_last(), i);
        lemma_pack_low(es.drop_last().remove(i));
        lemma_pack_low(es.drop_last());
        assert(es.remove(i).drop_last() =~= es.drop_last().remove(i));
        assert(es.remove(i).last() == es.last());
    }
}

/// Packing `more` from a place that is no further arrives no further than the end of a page that
/// holds them.
pub proof fn lemma_pack_page(es: Seq<Item>, more: Seq<Item>, page: int)
    requires
        no_further(pack(es), (page, HEADER_SIZE as int)),
        HEADER_SIZE + sizes(more) <= PAGE_SIZE,
    ensures
        no_further(pack(es + more), (page, HEADER_SIZE + sizes(more))),
    decreases more.len(),
{
    if more.len() == 0 {
        assert(es + more =~= es);
    } else {
        let m = more.drop_last();
        lemma_pack_page(es, m, page);
        lemma_pack_low(es + m);
        lemma_sizes_append(m, Seq::empty());
        assert((es + more).drop_last() =~= es + m);
    }
}

/// Reads the `n` entries of a page from `pos` on.
pub fn read_items(p: &Vec<u8>, n: u16) -> (r: Option<Vec<Entry>>)
    requires
        p@.len() == PAGE_SIZE,
    ensures
        match r {
            Some(es) => parse(p@, HEADER_SIZE as int, n as nat) == Some(items(es@)),
            None => parse(p@, HEADER_SIZE as int, n as nat) is None,
        },
{
    let mut es: Vec<Entry> = Vec::new();
    let mut pos: usize = HEADER_SIZE;
    let mut i: u16 = 0;
    proof {
        assert(items(es@) =~= Seq::empty());
    }
    while i < n
        invariant
            i <= n,
            p@.len() == PAGE_SIZE,
            HEADER_SIZE <= pos <= PAGE_SIZE,
            parse(p@, HEADER_SIZE as int, n as nat) == (match parse(p@, pos as int, (n - i) as nat) {
                Some(rest) => Some(items(es@) + rest),
                None => None::<Seq<Item>>,
            }),
            i == 0 ==> es@.len() == 0 && pos == HEADER_SIZE,
        decreases n - i,
    {
        if pos > PAGE_SIZE - ENTRY_HEADER {
            return None;
        }
        let k: usize = le::rd_u16(p, pos + 8) as usize;
        let v: usize = le::rd_u32(p, pos + 10) as usize;
        let left: usize = PAGE_SIZE - ENTRY_HEADER - pos;
        if k > left || v > left - k {
            return None;
        }
        let hash: u64 = le::rd_u64(p, pos);
        let key = le::copy_range(p, pos + 14, pos + 14 + k);
        let value = le::copy_range(p, pos + 14 + k, pos + 14 + k + v);
        let ghost before = items(es@);
        let ghost e = item_at(p@, pos as int);
        es.push(Entry { hash, key, value });
        proof {
            assert(items(es@) =~= before.push(e));
            match parse(p@, pos + size(e), (n - i - 1) as nat) {
                Some(rest) => {
                    assert(before + (seq![e] + rest) =~= items(es@) + rest);
                },
                None => {},
            }
        }
        pos = pos + ENTRY_HEADER + k + v;
        i = i + 1;
    }
    proof {
        assert(items(es@) + Seq::<Item>::empty() =~= items(es@));
    }
    Some(es)
}

/// Writes an entry at `pos`.
pub fn write_entry(p: &mut Vec<u8>, pos: usize, e: &Entry)
    requires
        old(p)@.len() == PAGE_SIZE,
        pos + size(e@) <= PAGE_SIZE,
    ensures
        final(p)@.len() == PAGE_SIZE,
        entry_at(final(p)@, pos as int),
        item_at(final(p)@, pos as int) == e@,
        forall|i: int| 0 <= i < pos ==> final(p)@[i] == old(p)@[i],
{
    let k: usize = e.key.len();
    let v: usize = e.value.len();
    le::wr_u64(p, pos, e.hash);
    let ghost p1 = p@;
    le::wr_u16(p, pos + 8, k as u16);
    let ghost p2 = p@;
    le::wr_u32(p, pos + 10, v as u32);
    let ghost p3 = p@;
    le::write_at(p, pos + 14, &e.key);
    let ghost p4 = p@;
    le::write_at(p, pos + 14 + k, &e.value);
    proof {
        let q = p@;
        let o = pos as int;
        le::lemma_u64_same(p1, q, o, o);
        le::lemma_u16_same(p2, q, o + 8, o + 8);
        le::lemma_u32_same(p3, q, o + 10, o + 10);
        assert(q.subrange(o + 14, o + 14 + k) =~= e.key@);
        assert(q.subrange(o + 14 + k, o + 14 + k + v) =~= e.value@);
    }
}

/// The bytes that an entry takes.
fn entry_size(e: &Entry) -> (n: usize)
    requires
        fits(e@),
    ensures
        n == size(e@),
{
    ENTRY_HEADER + e.key.len() + e.value.len()
}

/// How many pages the entries need when they are packed in order.
pub fn pages_needed(es: &Vec<Entry>) -> (r: usize)
    requires
        all_fit(items(es@)),
        es@.len() < usize::MAX,
    ensures
        r == pack(items(es@)).0,
{
    let ghost all = items(es@);
    let mut pages: usize = 1;
    let mut pos: usize = HEADER_SIZE;
    let mut i: usize = 0;
    assert(all.take(0) =~= Seq::empty());
    while i < es.len()
        invariant
            i <= es@.len(),
            es@.len() < usize::MAX,
            all == items(es@),
            all_fit(all),
            pack(all.take(i as int)) == (pages as int, pos as int),
            1 <= pages <= i + 1,
            HEADER_SIZE <= pos <= PAGE_SIZE,
        decreases es.len() - i,
    {
        assert(fits(all[i as int]));
        proof {
            lemma_pack_step(all, i as int);
        }
        let n: usize = entry_size(&es[i]);
        if pos + n <= PAGE_SIZE {
            pos = pos + n;
        } else {
            pages = pages + 1;
            pos = HEADER_SIZE + n;
        }
        i = i + 1;
    }
    assert(all.take(i as int) =~= all);
    pages
}

/// Fills a page with as many of the entries from `from` on as fit, and gives how far they reach.
pub fn fill_page(p: &mut Vec<u8>, es: &Vec<Entry>, from: usize) -> (end: usize)
    requires
        old(p)@.len() == PAGE_SIZE,
        from <= es@.len(),
        all_fit(items(es@)),
        from > 0 ==> from < es@.len() && pack(items(es@).take(from as int)).1 + size(es@[from as int]@) > PAGE_SIZE,
    ensures
        final(p)@.len() == PAGE_SIZE,
        from <= end <= es@.len(),
        from < es@.len() ==> from < end,
        overflow(final(p)@) == overflow(old(p)@),
        page_items(final(p)@) == Some(items(es@).subrange(from as int, end as int)),
        pack(items(es@).take(end as int)).0 == pack(items(es@).take(from as int)).0 + (if from == 0 {
            0int
        } else {
            1int
        }),
        end < es@.len() ==> pack(items(es@).take(end as int)).1 + size(es@[end as int]@) > PAGE_SIZE,
{
    let ghost all = items(es@);
    let ghost base = pack(all.take(from as int));
    let ghost first = base.0 + (if from == 0 {
        0int
    } else {
        1int
    });
    let ghost over = overflow(p@);
    let mut pos: usize = HEADER_SIZE;
    let mut idx: usize = from;
    let mut count: u16 = 0;
    assert(all.take(0) =~= Seq::empty());
    assert(all.subrange(from as int, from as int) =~= Seq::empty());
    assert forall|i: int| 0 <= i < es@.len() implies fits(#[trigger] es@[i]@) by {
        assert(fits(all[i]));
    }
    while idx < es.len() && entry_size(&es[idx]) <= PAGE_SIZE - pos
        invariant
            from <= idx <= es@.len(),
            p@.len() == PAGE_SIZE,
            all == items(es@),
            all_fit(all),
            forall|i: int| 0 <= i < es@.len() ==> fits(#[trigger] es@[i]@),
            HEADER_SIZE <= pos <= PAGE_SIZE,
            14 * count <= pos,
            count == idx - from,
            overflow(p@) == over,
            parse(p@, HEADER_SIZE as int, count as nat) == Some(all.subrange(from as int, idx as int)),
            pos == HEADER_SIZE + sizes(all.subrange(from as int, idx as int)),
            from > 0 ==> base.1 + size(all[from as int]) > PAGE_SIZE,
            from > 0 ==> from < all.len(),
            base == pack(all.take(from as int)),
            from == 0 ==> base == (1int, HEADER_SIZE as int),
            first == base.0 + (if from == 0 {
                0int
            } else {
                1int
            }),
            idx > from || from == 0 ==> pack(all.take(idx as int)) == (first, pos as int),
            idx == from ==> pos == HEADER_SIZE,
        decreases es.len() - idx,
    {
        let ghost before = p@;
        let ghost done = all.subrange(from as int, idx as int);
        let ghost at = pos as int;
        write_entry(p, pos, &es[idx]);
        proof {
            le::lemma_u64_same(before, p@, 2, 2);
            lemma_parse_same(before, p@, HEADER_SIZE as int, count as nat, at);
            lemma_parse_push(p@, HEADER_SIZE as int, count as nat, all[idx as int]);
            assert(done.push(all[idx as int]) =~= all.subrange(from as int, idx + 1));
            assert(all.subrange(from as int, idx + 1).drop_last() =~= done);
            lemma_pack_step(all, idx as int);
        }
        pos = pos + entry_size(&es[idx]);
        count = count + 1;
        idx = idx + 1;
    }
    let ghost before = p@;
    le::wr_u16(p, 0, count);
    proof {
        le::lemma_u64_same(before, p@, 2, 2);
        lemma_parse_same(before, p@, HEADER_SIZE as int, count as nat, pos as int);
        if idx == from && from < es.len() {
            assert(fits(all[from as int]));
        }
    }
    idx
}

} // verus!
