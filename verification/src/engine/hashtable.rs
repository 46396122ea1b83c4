//! A hash table kept in pages of a file.
//!
//! The file starts with a directory: for each bucket the offset of its first page. A bucket's
//! pages form a chain; its entries stand in the pages in order, each on the first page with room
//! behind the one before it. Writing a bucket packs all of its entries anew.

use crate::engine::hash_pages;
use crate::engine::hash_pages::{Entry, Item, ENTRY_HEADER, HEADER_SIZE, PAGE_SIZE};
use crate::error::StorageError;
use crate::utils::le;
use crate::utils::lex;
use std::collections::hash_map::DefaultHasher;
use std::hash::Hasher;
use vstd::prelude::*;
use vstd::std_specs::hash::DefaultHasherAdditionalSpecFns;

verus! {

pub const DIR_ENTRY_SIZE: usize = 8;

/// Directory entries in a page.
pub const DIR_PER_PAGE: usize = 512;

/// The hash of a key: that of its length and its bytes.
pub open spec fn hash_of(key: Seq<u8>) -> u64 {
    DefaultHasher::spec_finish(seq![le::le8(key.len() as u64), key])
}

fn hash_key(key: &[u8]) -> (h: u64)
    ensures
        h == hash_of(key@),
{
    let mut prefix: Vec<u8> = Vec::new();
    le::push_u64(&mut prefix, key.len() as u64);
    let mut h = DefaultHasher::new();
    h.write(&prefix);
    h.write(key);
    proof {
        assert(prefix@ =~= le::le8(key@.len() as u64));
        assert(h@ =~= seq![le::le8(key@.len() as u64), key@]);
    }
    h.finish()
}

/// The bucket that a hash falls in, of `n`.
pub open spec fn bucket(h: u64, n: u64) -> u64 {
    h & ((n - 1) as u64)
}

/// Of as many buckets as a power of two, each is that of the hash that is its number; and hashes that
/// lie the number of buckets apart share theirs.
pub proof fn hashes_fall_in_all_buckets(h: u64, n: u64)
    requires
        n > 0,
        n & ((n - 1) as u64) == 0,
    ensures
        bucket(h, n) < n,
        h < n ==> bucket(h, n) == h,
        h + n <= u64::MAX ==> bucket((h + n) as u64, n) == bucket(h, n),
{
    let m = (n - 1) as u64;
    assert(h & m <= m) by (bit_vector);
    assert(h <= m && n & m == 0 && m == n - 1 ==> h & m == h) by (bit_vector)
        requires
            n > 0,
    ;
    if h + n <= u64::MAX {
        let g = (h + n) as u64;
        assert(g & m == h & m) by (bit_vector)
            requires
                n > 0,
                n & m == 0,
                m == n - 1,
                g == h + n,
        ;
    }
}

fn bucket_of(h: u64, n: u64) -> (b: u64)
    requires
        n > 0,
    ensures
        b == bucket(h, n),
        b < n,
{
    let m: u64 = n - 1;
    assert(h & m <= m) by (bit_vector);
    h & m
}

/// How many pages the directory of `n` buckets takes.
pub open spec fn dir_pages(n: int) -> int {
    (8 * n + 4095) / 4096
}

/// Entry `i` of the directory.
pub open spec fn dir(ps: Seq<Seq<u8>>, i: int) -> u64 {
    le::u64_at(ps[i / 512], 8 * (i % 512))
}

/// The offset that stands in page `j` of a chain.
pub open spec fn link(c: Seq<int>, j: int) -> int {
    if j + 1 < c.len() {
        PAGE_SIZE * c[j + 1]
    } else {
        0
    }
}

/// Page `j` of a chain holds entries and the offset of the one that follows.
pub open spec fn linked(ps: Seq<Seq<u8>>, c: Seq<int>, j: int) -> bool {
    hash_pages::page_items(ps[c[j]]) is Some && hash_pages::overflow(ps[c[j]]) == link(c, j)
}

/// A chain of pages that starts at the offset `start`.
pub open spec fn chain_ok(ps: Seq<Seq<u8>>, lo: int, hi: int, start: u64, c: Seq<int>) -> bool {
    &&& c.len() >= 1
    &&& start == PAGE_SIZE * c[0]
    &&& forall|j: int| 0 <= j < c.len() ==> lo <= #[trigger] c[j] < hi
    &&& forall|j: int| 0 <= j < c.len() ==> #[trigger] linked(ps, c, j)
}

/// The pages all have their size.
pub open spec fn sized(ps: Seq<Seq<u8>>) -> bool {
    forall|p: int| 0 <= p < ps.len() ==> (#[trigger] ps[p]).len() == PAGE_SIZE
}

/// No page stands twice.
pub open spec fn apart(cs: Seq<Seq<int>>) -> bool {
    forall|i: int, j: int, k: int, l: int|
        #![trigger cs[i][j], cs[k][l]]
        0 <= i < cs.len() && 0 <= j < cs[i].len() && 0 <= k < cs.len() && 0 <= l < cs[k].len() && cs[i][j]
            == cs[k][l] ==> i == k && j == l
}

/// The pages hold the directory and the chains of `n` buckets, and use no page from `hi` on.
pub open spec fn shape(ps: Seq<Seq<u8>>, n: int, hi: int, cs: Seq<Seq<int>>) -> bool {
    &&& sized(ps)
    &&& cs.len() == n
    &&& n > 0
    &&& dir_pages(n) <= hi <= ps.len()
    &&& forall|i: int| 0 <= i < n ==> chain_ok(ps, dir_pages(n), hi, dir(ps, i), #[trigger] cs[i])
    &&& apart(cs)
}

/// The entries of a chain in order.
pub open spec fn chain_items(ps: Seq<Seq<u8>>, c: Seq<int>) -> Seq<Item>
    decreases c.len(),
{
    if c.len() == 0 {
        Seq::empty()
    } else {
        chain_items(ps, c.drop_last()) + hash_pages::page_items(ps[c.last()])->Some_0
    }
}

/// The entry belongs in bucket `i` of `n`.
pub open spec fn belongs(e: Item, i: int, n: u64) -> bool {
    e.hash == hash_of(e.key) && bucket(e.hash, n) == i
}

/// Entries of bucket `i`: each belongs there, and no key occurs twice.
pub open spec fn bucket_ok(es: Seq<Item>, i: int, n: u64) -> bool {
    &&& forall|a: int| 0 <= a < es.len() ==> belongs(#[trigger] es[a], i, n)
    &&& forall|a: int, b: int|
        0 <= a < es.len() && 0 <= b < es.len() && (#[trigger] es[a]).key == (#[trigger] es[b]).key ==> a == b
}

/// All buckets hold what belongs in them.
pub open spec fn sound(ps: Seq<Seq<u8>>, n: u64, cs: Seq<Seq<int>>) -> bool {
    forall|i: int| 0 <= i < n ==> bucket_ok(chain_items(ps, #[trigger] cs[i]), i, n)
}

/// The key stands among the entries.
pub open spec fn held(es: Seq<Item>, key: Seq<u8>) -> bool {
    exists|a: int| 0 <= a < es.len() && (#[trigger] es[a]).key == key
}

/// Where the key stands among the entries.
pub open spec fn place_of(es: Seq<Item>, key: Seq<u8>) -> int {
    choose|a: int| 0 <= a < es.len() && (#[trigger] es[a]).key == key
}

/// The entries with the value of `key` put in place, or a new entry behind the others.
pub open spec fn with_value(es: Seq<Item>, key: Seq<u8>, value: Seq<u8>) -> Seq<Item> {
    let e = Item { hash: hash_of(key), key, value };
    if held(es, key) {
        es.update(place_of(es, key), e)
    } else {
        es.push(e)
    }
}

/// The entries without that of `key`.
pub open spec fn without_key(es: Seq<Item>, key: Seq<u8>) -> Seq<Item> {
    if held(es, key) {
        es.remove(place_of(es, key))
    } else {
        es
    }
}

/// The value of each key, of all buckets.
pub open spec fn contents(ps: Seq<Seq<u8>>, n: u64, cs: Seq<Seq<int>>) -> Map<Seq<u8>, Seq<u8>> {
    Map::new(
        |k: Seq<u8>| held(chain_items(ps, cs[bucket(hash_of(k), n) as int]), k),
        |k: Seq<u8>|
            {
                let es = chain_items(ps, cs[bucket(hash_of(k), n) as int]);
                es[place_of(es, k)].value
            },
    )
}

/// What the vector of pages holds.
pub open spec fn page_bytes(v: Seq<Vec<u8>>) -> Seq<Seq<u8>> {
    Seq::new(v.len(), |i: int| v[i]@)
}

proof fn lemma_frame(ps: Seq<Seq<u8>>, qs: Seq<Seq<u8>>, c: Seq<int>)
    requires
        forall|j: int| 0 <= j < c.len() ==> ps[#[trigger] c[j]] == qs[c[j]],
    ensures
        chain_items(ps, c) == chain_items(qs, c),
    decreases c.len(),
{
    if c.len() > 0 {
        assert(ps[c[c.len() - 1]] == qs[c[c.len() - 1]]);
        assert forall|j: int| 0 <= j < c.drop_last().len() implies ps[#[trigger] c.drop_last()[j]]
            == qs[c.drop_last()[j]] by {
            assert(ps[c[j]] == qs[c[j]]);
        }
        lemma_frame(ps, qs, c.drop_last());
    }
}

/// Rewriting one chain, and pages beyond `hi`, leaves the other chains as they are.
proof fn lemma_reshape(
    ps: Seq<Seq<u8>>,
    qs: Seq<Seq<u8>>,
    n: int,
    hi: int,
    hi2: int,
    cs: Seq<Seq<int>>,
    b: int,
    c2: Seq<int>,
)
    requires
        shape(ps, n, hi, cs),
        0 <= b < n,
        qs.len() == ps.len(),
        sized(qs),
        hi <= hi2 <= qs.len(),
        forall|p: int| 0 <= p < hi && !cs[b].contains(p) ==> #[trigger] qs[p] == ps[p],
        chain_ok(qs, dir_pages(n), hi2, dir(ps, b), c2),
        c2.no_duplicates(),
        forall|j: int| 0 <= j < c2.len() ==> cs[b].contains(#[trigger] c2[j]) || c2[j] >= hi,
    ensures
        shape(qs, n, hi2, cs.update(b, c2)),
        forall|i: int| 0 <= i < n && i != b ==> chain_items(qs, #[trigger] cs[i]) == chain_items(ps, cs[i]),
{
    let ds = cs.update(b, c2);
    assert forall|i: int| 0 <= i < n implies #[trigger] dir(qs, i) == dir(ps, i) by {
        assert(0 <= i / 512 < dir_pages(n));
        if cs[b].contains(i / 512) {
            let j = choose|j: int| 0 <= j < cs[b].len() && cs[b][j] == i / 512;
            assert(cs[b][j] >= dir_pages(n));
        }
    }
    assert forall|i: int, j: int| 0 <= i < n && i != b && 0 <= j < cs[i].len() implies qs[#[trigger] cs[i][j]]
        == ps[cs[i][j]] by {
        assert(chain_ok(ps, dir_pages(n), hi, dir(ps, i), cs[i]));
        if cs[b].contains(cs[i][j]) {
            let l = choose|l: int| 0 <= l < cs[b].len() && cs[b][l] == cs[i][j];
            assert(cs[b][l] == cs[i][j]);
        }
    }
    assert forall|i: int| 0 <= i < n && i != b implies chain_items(qs, #[trigger] cs[i]) == chain_items(ps, cs[i]) by {
        lemma_frame(ps, qs, cs[i]);
    }
    assert forall|i: int| 0 <= i < n implies chain_ok(qs, dir_pages(n), hi2, dir(qs, i), #[trigger] ds[i]) by {
        assert(dir(qs, i) == dir(ps, i));
        if i != b {
            assert(chain_ok(ps, dir_pages(n), hi, dir(ps, i), cs[i]));
            assert forall|j: int| 0 <= j < ds[i].len() implies dir_pages(n) <= #[trigger] ds[i][j] < hi2 by {
                assert(dir_pages(n) <= cs[i][j] < hi);
            }
            assert forall|j: int| 0 <= j < ds[i].len() implies #[trigger] linked(qs, ds[i], j) by {
                assert(linked(ps, cs[i], j));
                assert(qs[cs[i][j]] == ps[cs[i][j]]);
            }
        }
    }
    assert forall|i: int, j: int, k: int, l: int|
        #![trigger ds[i][j], ds[k][l]]
        0 <= i < ds.len() && 0 <= j < ds[i].len() && 0 <= k < ds.len() && 0 <= l < ds[k].len() && ds[i][j] == ds[k][l]
        implies i == k && j == l by {
        if i != b {
            assert(chain_ok(ps, dir_pages(n), hi, dir(ps, i), cs[i]));
            assert(cs[i][j] < hi);
        }
        if k != b {
            assert(chain_ok(ps, dir_pages(n), hi, dir(ps, k), cs[k]));
            assert(cs[k][l] < hi);
        }
        if i != b && k != b {
            assert(cs[i][j] == cs[k][l]);
        } else if i == b && k == b {
            assert(c2[j] == c2[l]);
        } else if i == b {
            assert(cs[b].contains(c2[j]));
            let m = choose|m: int| 0 <= m < cs[b].len() && cs[b][m] == c2[j];
            assert(cs[b][m] == cs[k][l]);
        } else {
            assert(cs[b].contains(c2[l]));
            let m = choose|m: int| 0 <= m < cs[b].len() && cs[b][m] == c2[l];
            assert(cs[i][j] == cs[b][m]);
        }
    }
}

/// A chain holds its entries on as many pages as packing them in order needs, or more.
proof fn lemma_chain_pack(ps: Seq<Seq<u8>>, lo: int, hi: int, c: Seq<int>)
    requires
        sized(ps),
        0 <= lo,
        hi <= ps.len(),
        c.len() >= 1,
        forall|j: int| 0 <= j < c.len() ==> lo <= #[trigger] c[j] < hi,
        forall|j: int| 0 <= j < c.len() ==> hash_pages::page_items(ps[#[trigger] c[j]]) is Some,
    ensures
        hash_pages::pack(chain_items(ps, c)).0 <= c.len(),
        hash_pages::all_fit(chain_items(ps, c)),
    decreases c.len(),
{
    let d = c.drop_last();
    let p = ps[c.last()];
    assert(c[c.len() - 1] == c.last());
    let more = hash_pages::page_items(p)->Some_0;
    let n = le::u16_at(p, 0) as nat;
    hash_pages::lemma_parse_end(p, HEADER_SIZE as int, n);
    lemma_all_fit(more);
    let before = chain_items(ps, d);
    if d.len() == 0 {
        assert(before =~= Seq::empty());
        assert(before + more =~= chain_items(ps, c));
    } else {
        assert forall|j: int| 0 <= j < d.len() implies lo <= #[trigger] d[j] < hi by {
            assert(c[j] == d[j]);
        }
        assert forall|j: int| 0 <= j < d.len() implies hash_pages::page_items(ps[#[trigger] d[j]]) is Some by {
            assert(c[j] == d[j]);
        }
        lemma_chain_pack(ps, lo, hi, d);
    }
    assert(hash_pages::all_fit(before + more)) by {
        assert forall|i: int| 0 <= i < (before + more).len() implies hash_pages::fits(#[trigger] (before + more)[i]) by {
            if i < before.len() {
                assert((before + more)[i] == before[i]);
            } else {
                assert((before + more)[i] == more[i - before.len()]);
            }
        }
    }
    hash_pages::lemma_pack_page(before, more, c.len() as int);
}

proof fn lemma_all_fit(es: Seq<Item>)
    requires
        HEADER_SIZE + hash_pages::sizes(es) <= PAGE_SIZE,
    ensures
        hash_pages::all_fit(es),
{
    assert forall|i: int| 0 <= i < es.len() implies hash_pages::fits(#[trigger] es[i]) by {
        assert(es.take(i + 1) + es.skip(i + 1) =~= es);
        hash_pages::lemma_sizes_append(es.take(i + 1), es.skip(i + 1));
        hash_pages::lemma_sizes_append(es.skip(i + 1), Seq::empty());
        assert(es.take(i + 1).drop_last() =~= es.take(i));
        hash_pages::lemma_sizes_append(es.take(i), Seq::empty());
    }
}

/// Taking one chain as it is linked so far and one more page.
proof fn lemma_chain_step(ps: Seq<Seq<u8>>, c: Seq<int>, j: int)
    requires
        0 <= j < c.len(),
    ensures
        chain_items(ps, c.take(j + 1)) == chain_items(ps, c.take(j)) + hash_pages::page_items(ps[c[j]])->Some_0,
{
    assert(c.take(j + 1).drop_last() =~= c.take(j));
}

/// A page of zeros holds nothing and ends its chain.
proof fn lemma_zero_page(p: Seq<u8>)
    requires
        p.len() == PAGE_SIZE,
        forall|i: int| 0 <= i < PAGE_SIZE ==> p[i] == 0,
    ensures
        hash_pages::page_items(p) == Some(Seq::<Item>::empty()),
        hash_pages::overflow(p) == 0,
{
    reveal(le::u16_at);
    reveal(le::u32_at);
    reveal(le::u64_at);
}

fn zero_page() -> (p: Vec<u8>)
    ensures
        p@.len() == PAGE_SIZE,
        forall|i: int| 0 <= i < PAGE_SIZE ==> p@[i] == 0,
        hash_pages::page_items(p@) == Some(Seq::<Item>::empty()),
        hash_pages::overflow(p@) == 0,
{
    let p: Vec<u8> = vec![0u8; PAGE_SIZE];
    proof {
        lemma_zero_page(p@);
    }
    p
}

/// A persistent hash table.
pub struct HashTable {
    pages: Vec<Vec<u8>>,
    bucket_count: u64,
    next_page: usize,
    chains: Ghost<Seq<Seq<int>>>,
}

impl View for HashTable {
    type V = Map<Seq<u8>, Seq<u8>>;

    closed spec fn view(&self) -> Map<Seq<u8>, Seq<u8>> {
        contents(self.ps(), self.bucket_count, self.chains@)
    }
}

impl HashTable {
    pub closed spec fn ps(&self) -> Seq<Seq<u8>> {
        page_bytes(self.pages@)
    }

    pub closed spec fn bucket_count(&self) -> u64 {
        self.bucket_count
    }

    pub closed spec fn chains(&self) -> Seq<Seq<int>> {
        self.chains@
    }

    /// The pages that no chain has taken yet.
    pub closed spec fn free_pages(&self) -> int {
        self.pages@.len() - self.next_page
    }

    pub closed spec fn shaped(&self) -> bool {
        &&& shape(self.ps(), self.bucket_count as int, self.next_page as int, self.chains@)
        &&& self.pages@.len() * PAGE_SIZE <= usize::MAX
        &&& self.pages@.len() * PAGE_SIZE <= u64::MAX
    }

    pub closed spec fn wf(&self) -> bool {
        self.shaped() && sound(self.ps(), self.bucket_count, self.chains@)
    }

    /// The entries of bucket `b`.
    pub open spec fn bucket_items(&self, b: int) -> Seq<Item> {
        chain_items(self.ps(), self.chains()[b])
    }

    /// Bucket `b` was written anew with the given entries: its chain has as many pages as they
    /// need, of which only those that it did not have were taken from the free ones. The chains of
    /// the other buckets and what they hold stay.
    pub open spec fn rewrote(&self, to: &Self, b: int, es: Seq<Item>) -> bool {
        let had = self.chains()[b].len();
        let needs = hash_pages::pack(es).0;
        &&& to.bucket_items(b) == es
        &&& to.chains().len() == self.chains().len()
        &&& to.chains()[b].len() == needs
        &&& to.free_pages() == self.free_pages() - (if needs > had {
            needs - had
        } else {
            0
        })
        &&& forall|i: int|
            0 <= i < self.bucket_count() && i != b ==> #[trigger] to.chains()[i] == self.chains()[i]
                && to.bucket_items(i) == self.bucket_items(i)
    }

    /// The entry fits a page, and its bucket with it fits the pages it has and those still free.
    pub open spec fn has_room(&self, key: Seq<u8>, value: Seq<u8>) -> bool {
        let b = bucket(hash_of(key), self.bucket_count()) as int;
        let es = with_value(self.bucket_items(b), key, value);
        &&& HEADER_SIZE + ENTRY_HEADER + key.len() + value.len() <= PAGE_SIZE
        &&& hash_pages::pack(es).0 <= self.chains()[b].len() + self.free_pages()
    }

    fn bucket_page(&self, b: u64) -> (p: usize)
        requires
            self.shaped(),
            b < self.bucket_count,
        ensures
            p == self.chains@[b as int][0],
    {
        let ghost ps = self.ps();
        proof {
            assert(chain_ok(ps, dir_pages(self.bucket_count as int), self.next_page as int, dir(ps, b as int), self.chains@[b as int]));
            assert(self.chains@[b as int][0] < self.next_page);
            assert(ps[(b / 512) as int] == self.pages@[(b / 512) as int]@);
            assert(ps[(b / 512) as int].len() == PAGE_SIZE);
        }
        let off: u64 = le::rd_u64(&self.pages[(b / 512) as usize], 8 * (b % 512) as usize);
        (off / 4096) as usize
    }

    /// The page that follows in a chain, where there is one.
    fn following(&self, page: usize, Ghost(c): Ghost<Seq<int>>, Ghost(j): Ghost<int>) -> (r: Option<usize>)
        requires
            sized(self.ps()),
            page < self.pages@.len(),
            0 <= j < c.len(),
            c[j] == page,
            linked(self.ps(), c, j),
            forall|k: int| 0 <= k < c.len() ==> 0 < #[trigger] c[k] < self.pages@.len(),
        ensures
            match r {
                Some(p) => j + 1 < c.len() && p == c[j + 1],
                None => j + 1 == c.len(),
            },
    {
        assert(self.ps()[page as int] == self.pages@[page as int]@);
        let off: u64 = le::rd_u64(&self.pages[page], 2);
        proof {
            if j + 1 < c.len() {
                assert(0 < c[j + 1] < self.pages@.len());
            }
            assert(self.pages@.len() == self.pages.len());
        }
        if off == 0 {
            None
        } else {
            Some((off / 4096) as usize)
        }
    }

    /// The entries of a page.
    fn read_page(&self, page: usize) -> (es: Vec<Entry>)
        requires
            sized(self.ps()),
            page < self.pages@.len(),
            hash_pages::page_items(self.ps()[page as int]) is Some,
        ensures
            hash_pages::page_items(self.ps()[page as int]) == Some(hash_pages::items(es@)),
    {
        assert(self.ps()[page as int] == self.pages@[page as int]@);
        let p = &self.pages[page];
        let n: u16 = le::rd_u16(p, 0);
        match hash_pages::read_items(p, n) {
            Some(es) => es,
            None => {
                assert(false);
                Vec::new()
            },
        }
    }

    /// All entries of a bucket, and the number of its pages.
    fn read_chain(&self, b: u64) -> (r: (Vec<Entry>, usize))
        requires
            self.shaped(),
            b < self.bucket_count,
        ensures
            hash_pages::items(r.0@) == self.bucket_items(b as int),
            r.1 == self.chains@[b as int].len(),
            r.1 <= self.next_page,
    {
        let ghost ps = self.ps();
        let ghost c = self.chains@[b as int];
        let ghost lo = dir_pages(self.bucket_count as int);
        proof {
            assert(chain_ok(ps, lo, self.next_page as int, dir(ps, b as int), c));
            assert(lo > 0);
            lemma_chain_short(self.chains@, b as int, lo, self.next_page as int);
            assert(c.take(0) =~= Seq::empty());
        }
        let mut all: Vec<Entry> = Vec::new();
        let mut page: usize = self.bucket_page(b);
        let mut j: usize = 0;
        assert(hash_pages::items(all@) =~= Seq::empty());
        loop
            invariant_except_break
                self.shaped(),
                ps == self.ps(),
                j < c.len(),
                c.len() <= self.next_page,
                page == c[j as int],
                0 < lo,
                forall|k: int| 0 <= k < c.len() ==> lo <= #[trigger] c[k] < self.next_page,
                forall|k: int| 0 <= k < c.len() ==> #[trigger] linked(ps, c, k),
                hash_pages::items(all@) == chain_items(ps, c.take(j as int)),
            ensures
                j == c.len(),
                hash_pages::items(all@) == chain_items(ps, c),
            decreases c.len() - j,
        {
            assert(linked(ps, c, j as int));
            let es = self.read_page(page);
            proof {
                lemma_chain_step(ps, c, j as int);
            }
            push_all(&mut all, es);
            let next = self.following(page, Ghost(c), Ghost(j as int));
            j = j + 1;
            match next {
                Some(p) => {
                    page = p;
                },
                None => {
                    assert(c.take(j as int) =~= c);
                    break;
                },
            }
        }
        (all, j)
    }

    /// Writes a bucket's entries to its chain, which grows by free pages or loses its last ones.
    fn write_chain(&mut self, b: u64, es: &Vec<Entry>)
        requires
            old(self).shaped(),
            b < old(self).bucket_count,
            hash_pages::all_fit(hash_pages::items(es@)),
            hash_pages::pack(hash_pages::items(es@)).0 <= old(self).chains@[b as int].len() + old(self).free_pages(),
        ensures
            final(self).shaped(),
            final(self).bucket_count == old(self).bucket_count,
            final(self).pages@.len() == old(self).pages@.len(),
            final(self).bucket_items(b as int) == hash_pages::items(es@),
            old(self).rewrote(final(self), b as int, hash_pages::items(es@)),
            forall|i: int| 0 <= i < old(self).bucket_count && i != b ==> #[trigger] final(self).bucket_items(i) == old(
                self,
            ).bucket_items(i),
    {
        let ghost all = hash_pages::items(es@);
        let ghost ps0 = self.ps();
        let ghost cs0 = self.chains@;
        let ghost n = self.bucket_count as int;
        let ghost hi0 = self.next_page as int;
        let ghost lo = dir_pages(n);
        let ghost mut c = cs0[b as int];
        let ghost old_c = c;
        let ghost size = self.pages@.len();
        let ghost start = dir(ps0, b as int);
        proof {
            assert(chain_ok(ps0, lo, hi0, start, c));
            assert(lo > 0);
            lemma_chain_short(cs0, b as int, lo, hi0);
            assert(c.take(0) =~= Seq::empty());
            assert(all.take(0) =~= Seq::empty());
            assert(self.pages@.len() == self.pages.len());
        }
        let mut page: usize = self.bucket_page(b);
        let mut from: usize = 0;
        let ghost mut j: int = 0;
        loop
            invariant_except_break
                from < es@.len() || from == 0,
                j == 0 ==> from == 0,
                j > 0 ==> from > 0 && hash_pages::pack(all.take(from as int)).0 == j && hash_pages::pack(
                    all.take(from as int),
                ).1 + hash_pages::size(all[from as int]) > PAGE_SIZE,
                0 <= j < c.len(),
                page == c[j],
                chain_items(self.ps(), c.take(j)) == all.take(from as int),
                c.len() + hi0 == old_c.len() + self.next_page,
                self.next_page > hi0 ==> c.len() == j + 1,
            invariant
                self.pages@.len() == size,
                size * PAGE_SIZE <= u64::MAX,
                size <= usize::MAX,
                self.bucket_count == n,
                self.chains@ == cs0,
                all == hash_pages::items(es@),
                hash_pages::all_fit(all),
                hi0 <= self.next_page <= size,
                0 < lo,
                chain_ok(self.ps(), lo, self.next_page as int, start, c),
                c.no_duplicates(),
                sized(self.ps()),
                hash_pages::pack(all).0 <= c.len() + size - self.next_page,
                forall|p: int| 0 <= p < hi0 && !old_c.contains(p) ==> #[trigger] self.ps()[p] == ps0[p],
                forall|k: int| 0 <= k < c.len() ==> old_c.contains(#[trigger] c[k]) || c[k] >= hi0,
            ensures
                chain_items(self.ps(), c) == all,
                c.len() == hash_pages::pack(all).0,
                self.next_page - hi0 == (if c.len() > old_c.len() {
                    c.len() - old_c.len()
                } else {
                    0
                }),
            decreases es@.len() - from,
        {
            let ghost before = self.ps();
            let ghost c1 = c;
            assert(before[page as int] == self.pages@[page as int]@);
            assert(before[page as int].len() == PAGE_SIZE);
            assert(linked(before, c, j));
            let next = self.following(page, Ghost(c), Ghost(j));
            let end: usize = hash_pages::fill_page(&mut self.pages[page], es, from);
            let ghost filled = self.ps();
            proof {
                assert(filled =~= before.update(page as int, self.pages@[page as int]@));
                lemma_step_pack(all, from as int, end as int, j);
            }
            if end >= es.len() {
                let ghost q = self.pages@[page as int]@;
                le::wr_u64(&mut self.pages[page], 2, 0);
                proof {
                    let q2 = self.pages@[page as int]@;
                    lemma_relink(q, q2);
                    assert(self.ps() =~= before.update(page as int, q2));
                    c = c1.take(j + 1);
                    lemma_cut(before, self.ps(), lo, self.next_page as int, start, c1, j);
                    lemma_done(before, self.ps(), c1, j);
                    assert(c.take(j) =~= c1.take(j));
                    assert(c.take(j + 1) =~= c);
                    assert(all.take(from as int) + all.subrange(from as int, end as int) =~= all);
                    lemma_chain_step(self.ps(), c, j);
                    assert(all.take(end as int) =~= all);
                }
                break;
            }
            match next {
                Some(p) => {
                    proof {
                        lemma_refill(before, self.ps(), lo, self.next_page as int, start, c1, j);
                        lemma_done(before, self.ps(), c1, j);
                        lemma_chain_step(self.ps(), c1, j);
                        assert(all.take(from as int) + all.subrange(from as int, end as int) =~= all.take(end as int));
                        j = j + 1;
                    }
                    page = p;
                },
                None => {
                    proof {
                        hash_pages::lemma_pack_grows(all, end + 1);
                        hash_pages::lemma_pack_step(all, end as int);
                    }
                    let new_page: usize = self.next_page;
                    self.pages.set(new_page, zero_page());
                    self.next_page = self.next_page + 1;
                    let ghost q = self.pages@[page as int]@;
                    le::wr_u64(&mut self.pages[page], 2, new_page as u64 * 4096);
                    proof {
                        let q2 = self.pages@[page as int]@;
                        lemma_relink(q, q2);
                        c = c1.push(new_page as int);
                        assert(self.ps() =~= before.update(new_page as int, self.pages@[new_page as int]@).update(
                            page as int,
                            q2,
                        ));
                        lemma_extend(before, self.ps(), lo, new_page as int, start, c1);
                        lemma_done(before, self.ps(), c1, j);
                        assert(c.take(j + 1) =~= c1);
                        assert(c.take(j) =~= c1.take(j));
                        assert(c1.take(j + 1) =~= c1);
                        lemma_chain_step(self.ps(), c1, j);
                        assert(all.take(from as int) + all.subrange(from as int, end as int) =~= all.take(end as int));
                        j = j + 1;
                    }
                    page = new_page;
                },
            }
            from = end;
        }
        proof {
            lemma_reshape(ps0, self.ps(), n, hi0, self.next_page as int, cs0, b as int, c);
        }
        self.chains = Ghost(cs0.update(b as int, c));
        proof {
            let ds = self.chains@;
            assert forall|i: int| 0 <= i < n && i != b implies #[trigger] self.bucket_items(i) == old(
                self,
            ).bucket_items(i) by {
                assert(ds[i] == cs0[i]);
                assert(chain_items(self.ps(), cs0[i]) == chain_items(ps0, cs0[i]));
            }
        }
    }
}

impl HashTable {
    /// A table of `bucket_count` buckets in `total_pages` pages.
    pub fn create(bucket_count: u64, total_pages: u64) -> (t: HashTable)
        requires
            bucket_count > 0,
            bucket_count & ((bucket_count - 1) as u64) == 0,
            dir_pages(bucket_count as int) + bucket_count <= total_pages,
            total_pages * PAGE_SIZE <= usize::MAX,
        ensures
            t.wf(),
            t.bucket_count() == bucket_count,
            t@ == Map::<Seq<u8>, Seq<u8>>::empty(),
            t.ps().len() == total_pages,
            t.free_pages() == total_pages - dir_pages(bucket_count as int) - bucket_count,
            t.chains().len() == bucket_count,
            forall|i: int|
                0 <= i < bucket_count ==> (#[trigger] t.chains()[i]).len() == 1 && t.bucket_items(i) == Seq::<
                    Item,
                >::empty(),
    {
        let total: usize = total_pages as usize;
        let buckets: usize = bucket_count as usize;
        let first: usize = (buckets * DIR_ENTRY_SIZE + (PAGE_SIZE - 1)) / PAGE_SIZE;
        let mut pages: Vec<Vec<u8>> = Vec::new();
        let mut p: usize = 0;
        while p < total
            invariant
                p <= total,
                pages@.len() == p,
                forall|i: int| 0 <= i < p ==> (#[trigger] pages@[i])@.len() == PAGE_SIZE,
                forall|i: int| 0 <= i < p ==> hash_pages::page_items((#[trigger] pages@[i])@) == Some(Seq::<Item>::empty()),
                forall|i: int| 0 <= i < p ==> hash_pages::overflow((#[trigger] pages@[i])@) == 0,
            decreases total - p,
        {
            pages.push(zero_page());
            p = p + 1;
        }
        let mut i: usize = 0;
        while i < buckets
            invariant
                i <= buckets,
                buckets == bucket_count,
                first == dir_pages(buckets as int),
                first + buckets <= total,
                total * PAGE_SIZE <= usize::MAX,
                total * PAGE_SIZE <= u64::MAX,
                pages@.len() == total,
                sized(page_bytes(pages@)),
                forall|k: int| first <= k < total ==> hash_pages::page_items((#[trigger] pages@[k])@) == Some(Seq::<Item>::empty()),
                forall|k: int| first <= k < total ==> hash_pages::overflow((#[trigger] pages@[k])@) == 0,
                forall|k: int| 0 <= k < i ==> #[trigger] dir(page_bytes(pages@), k) == PAGE_SIZE * (first + k),
            decreases buckets - i,
        {
            let at: usize = i / 512;
            let ghost before = page_bytes(pages@);
            assert(before[at as int] == pages@[at as int]@);
            le::wr_u64(&mut pages[at], 8 * (i % 512), (first as u64 + i as u64) * 4096);
            proof {
                let ps = page_bytes(pages@);
                assert(ps =~= before.update(at as int, pages@[at as int]@));
                assert forall|k: int| 0 <= k < i + 1 implies #[trigger] dir(ps, k) == PAGE_SIZE * (first + k) by {
                    if k < i {
                        assert(dir(before, k) == PAGE_SIZE * (first + k));
                        if k / 512 == at {
                            le::lemma_u64_same(before[at as int], ps[at as int], 8 * (k % 512), 8 * (k % 512));
                        }
                    }
                }
            }
            i = i + 1;
        }
        let ghost cs = Seq::new(bucket_count as nat, |k: int| seq![first + k]);
        let t = HashTable { pages, bucket_count, next_page: first + buckets, chains: Ghost(cs) };
        proof {
            let ps = t.ps();
            assert forall|k: int| 0 <= k < bucket_count implies chain_ok(
                ps,
                first as int,
                first + buckets,
                dir(ps, k),
                #[trigger] cs[k],
            ) by {
                assert(cs[k][0] == first + k);
                assert(ps[first + k] == pages@[first + k]@);
                assert(linked(ps, cs[k], 0));
            }
            assert(apart(cs)) by {
                assert forall|a: int, b: int, k: int, l: int|
                    #![trigger cs[a][b], cs[k][l]]
                    0 <= a < cs.len() && 0 <= b < cs[a].len() && 0 <= k < cs.len() && 0 <= l < cs[k].len() && cs[a][b]
                        == cs[k][l] implies a == k && b == l by {
                    assert(cs[a][b] == first + a);
                    assert(cs[k][l] == first + k);
                }
            }
            assert forall|k: int| 0 <= k < bucket_count implies chain_items(ps, #[trigger] cs[k]) =~= Seq::<Item>::empty() by {
                assert(cs[k].last() == first + k);
                assert(ps[first + k] == pages@[first + k]@);
                assert(cs[k].drop_last() =~= Seq::<int>::empty());
                assert(chain_items(ps, Seq::<int>::empty()) =~= Seq::<Item>::empty());
            }
            assert forall|k: Seq<u8>| !(#[trigger] t@.contains_key(k)) by {
                let h = hash_of(k);
                let m = (bucket_count - 1) as u64;
                assert(h & m <= m) by (bit_vector);
                assert(chain_items(ps, cs[bucket(h, bucket_count) as int]) =~= Seq::<Item>::empty());
            }
            assert(t@ =~= Map::<Seq<u8>, Seq<u8>>::empty());
        }
        t
    }

    /// The value of `key`.
    pub fn get(&self, key: &[u8]) -> (r: Option<Vec<u8>>)
        requires
            self.wf(),
        ensures
            match r {
                Some(v) => self@.contains_key(key@) && self@[key@] == v@,
                None => !self@.contains_key(key@),
            },
    {
        let h: u64 = hash_key(key);
        let b: u64 = bucket_of(h, self.bucket_count);
        let ghost ps = self.ps();
        let ghost c = self.chains@[b as int];
        let ghost lo = dir_pages(self.bucket_count as int);
        let ghost all = self.bucket_items(b as int);
        proof {
            assert(chain_ok(ps, lo, self.next_page as int, dir(ps, b as int), c));
            assert(bucket_ok(chain_items(ps, self.chains@[b as int]), b as int, self.bucket_count));
            assert(c.take(0) =~= Seq::empty());
            assert(c.take(c.len() as int) =~= c);
        }
        let mut page: usize = self.bucket_page(b);
        let ghost mut j: int = 0;
        loop
            invariant_except_break
                self.shaped(),
                ps == self.ps(),
                0 <= j < c.len(),
                page == c[j],
                0 < lo,
                h == hash_of(key@),
                b == bucket(h, self.bucket_count),
                c == self.chains@[b as int],
                forall|k: int| 0 <= k < c.len() ==> lo <= #[trigger] c[k] < self.next_page,
                forall|k: int| 0 <= k < c.len() ==> #[trigger] linked(ps, c, k),
                all == chain_items(ps, c),
                bucket_ok(all, b as int, self.bucket_count),
                !held(chain_items(ps, c.take(j)), key@),
            ensures
                !held(all, key@),
            decreases c.len() - j,
        {
            assert(linked(ps, c, j));
            let es = self.read_page(page);
            let ghost done = chain_items(ps, c.take(j));
            let ghost here = hash_pages::items(es@);
            proof {
                lemma_chain_step(ps, c, j);
                lemma_chain_prefix(ps, c, j + 1);
                assert(chain_items(ps, c.take(j + 1)) == done + here);
                assert forall|a: int| 0 <= a < here.len() implies #[trigger] here[a] == all[done.len() + a] by {
                    assert((done + here)[done.len() + a] == here[a]);
                }
            }
            let mut i: usize = 0;
            while i < es.len()
                invariant
                    i <= es@.len(),
                    here == hash_pages::items(es@),
                    h == hash_of(key@),
                    b == bucket(h, self.bucket_count),
                    c == self.chains@[b as int],
                    ps == self.ps(),
                    all == chain_items(ps, c),
                    bucket_ok(all, b as int, self.bucket_count),
                    done.len() + here.len() <= all.len(),
                    forall|a: int| 0 <= a < here.len() ==> #[trigger] here[a] == all[done.len() + a],
                    forall|a: int| 0 <= a < i ==> (#[trigger] here[a]).key != key@,
                decreases es.len() - i,
            {
                assert(here[i as int] == es@[i as int]@);
                assert(belongs(all[done.len() + i], b as int, self.bucket_count));
                if es[i].hash == h && lex::same_bytes(&es[i].key, key) {
                    let value = le::copy_range(&es[i].value, 0, es[i].value.len());
                    proof {
                        let a = done.len() + i;
                        assert(all[a].key == key@);
                        assert(held(all, key@));
                        assert(place_of(all, key@) == a);
                        assert(value@ =~= es@[i as int].value@);
                    }
                    return Some(value);
                }
                i = i + 1;
            }
            proof {
                assert(!held(done + here, key@)) by {
                    if held(done + here, key@) {
                        let a = choose|a: int| 0 <= a < (done + here).len() && (#[trigger] (done + here)[a]).key == key@;
                        if a < done.len() {
                            assert(done[a].key == key@);
                        } else {
                            assert(here[a - done.len()].key == key@);
                        }
                    }
                }
            }
            let next = self.following(page, Ghost(c), Ghost(j));
            match next {
                Some(p) => {
                    page = p;
                    proof {
                        j = j + 1;
                    }
                },
                None => {
                    assert(c.take(j + 1) =~= c);
                    break;
                },
            }
        }
        None
    }

    /// Where the key stands among the entries, or their number.
    fn find(es: &Vec<Entry>, h: u64, key: &[u8]) -> (i: usize)
        requires
            h == hash_of(key@),
            forall|a: int| 0 <= a < es@.len() ==> (#[trigger] es@[a]).hash == hash_of(es@[a].key@),
        ensures
            i <= es@.len(),
            i < es@.len() ==> es@[i as int].key@ == key@,
            i == es@.len() ==> !held(hash_pages::items(es@), key@),
    {
        let mut i: usize = 0;
        while i < es.len()
            invariant
                i <= es@.len(),
                h == hash_of(key@),
                forall|a: int| 0 <= a < es@.len() ==> (#[trigger] es@[a]).hash == hash_of(es@[a].key@),
                forall|a: int| 0 <= a < i ==> (#[trigger] es@[a]).key@ != key@,
            decreases es.len() - i,
        {
            if es[i].hash == h && lex::same_bytes(&es[i].key, key) {
                return i;
            }
            i = i + 1;
        }
        assert(!held(hash_pages::items(es@), key@)) by {
            let v = hash_pages::items(es@);
            if held(v, key@) {
                let a = choose|a: int| 0 <= a < v.len() && (#[trigger] v[a]).key == key@;
                assert(v[a] == es@[a]@);
                assert(es@[a].key@ != key@);
            }
        }
        i
    }

    /// Sets the value of `key`. What does not fit is refused, and the table stays as it is.
    pub fn put(&mut self, key: &[u8], value: &[u8]) -> (r: Result<(), StorageError>)
        requires
            old(self).wf(),
        ensures
            final(self).wf(),
            final(self).bucket_count() == old(self).bucket_count(),
            final(self).ps().len() == old(self).ps().len(),
            match r {
                Ok(_) => old(self).has_room(key@, value@) && final(self)@ == old(self)@.insert(key@, value@)
                    && old(self).rewrote(
                    final(self),
                    bucket(hash_of(key@), old(self).bucket_count()) as int,
                    with_value(
                        old(self).bucket_items(bucket(hash_of(key@), old(self).bucket_count()) as int),
                        key@,
                        value@,
                    ),
                ),
                Err(e) => !old(self).has_room(key@, value@) && e == StorageError::StorageFull && *final(self) == *old(
                    self,
                ),
            },
    {
        if key.len() > PAGE_SIZE || value.len() > PAGE_SIZE || HEADER_SIZE + ENTRY_HEADER + key.len() + value.len()
            > PAGE_SIZE {
            return Err(StorageError::StorageFull);
        }
        let h: u64 = hash_key(key);
        let b: u64 = bucket_of(h, self.bucket_count);
        let ghost n = self.bucket_count;
        let (mut es, len) = self.read_chain(b);
        let ghost before = hash_pages::items(es@);
        proof {
            let ps = self.ps();
            let c = self.chains@[b as int];
            assert(chain_ok(ps, dir_pages(n as int), self.next_page as int, dir(ps, b as int), c));
            assert forall|j: int| 0 <= j < c.len() implies hash_pages::page_items(ps[#[trigger] c[j]]) is Some by {
                assert(linked(ps, c, j));
            }
            lemma_chain_pack(ps, dir_pages(n as int), self.next_page as int, c);
            assert(bucket_ok(chain_items(ps, self.chains@[b as int]), b as int, n));
            assert forall|a: int| 0 <= a < es@.len() implies (#[trigger] es@[a]).hash == hash_of(es@[a].key@) by {
                assert(before[a] == es@[a]@);
                assert(belongs(before[a], b as int, n));
            }
        }
        let at: usize = HashTable::find(&es, h, key);
        let item = Entry { hash: h, key: le::copy_range(key, 0, key.len()), value: le::copy_range(value, 0, value.len()) };
        let ghost e = Item { hash: h, key: key@, value: value@ };
        assert(item.key@ =~= key@);
        assert(item.value@ =~= value@);
        assert(item@ == e);
        if at < es.len() {
            es.set(at, item);
            proof {
                assert(before[at as int].key == key@);
                assert(held(before, key@));
                assert(place_of(before, key@) == at);
                assert(hash_pages::items(es@) =~= with_value(before, key@, value@));
            }
        } else {
            es.push(item);
            assert(hash_pages::items(es@) =~= with_value(before, key@, value@));
        }
        let ghost all = hash_pages::items(es@);
        proof {
            lemma_put(before, key@, value@, b as int, n);
            assert(hash_pages::all_fit(all)) by {
                assert forall|i: int| 0 <= i < all.len() implies hash_pages::fits(#[trigger] all[i]) by {
                    if i < before.len() && all[i] == before[i] {
                        assert(hash_pages::fits(before[i]));
                    } else {
                        assert(all[i] == e);
                    }
                }
            }
            assert(es@.len() == es.len());
        }
        if es.len() == usize::MAX {
            proof {
                lemma_many(all);
            }
            return Err(StorageError::StorageFull);
        }
        let needed: usize = hash_pages::pages_needed(&es);
        assert(self.pages@.len() == self.pages.len());
        if needed > len && needed - len > self.pages.len() - self.next_page {
            return Err(StorageError::StorageFull);
        }
        self.write_chain(b, &es);
        proof {
            lemma_changed(*old(self), *self, b, key@);
        }
        Ok(())
    }

    /// Removes `key`.
    pub fn delete(&mut self, key: &[u8])
        requires
            old(self).wf(),
        ensures
            final(self).wf(),
            final(self).bucket_count() == old(self).bucket_count(),
            final(self).ps().len() == old(self).ps().len(),
            final(self)@ == old(self)@.remove(key@),
            old(self).rewrote(
                final(self),
                bucket(hash_of(key@), old(self).bucket_count()) as int,
                without_key(old(self).bucket_items(bucket(hash_of(key@), old(self).bucket_count()) as int), key@),
            ),
    {
        let h: u64 = hash_key(key);
        let b: u64 = bucket_of(h, self.bucket_count);
        let ghost n = self.bucket_count;
        let (mut es, len) = self.read_chain(b);
        let ghost before = hash_pages::items(es@);
        proof {
            let ps = self.ps();
            let c = self.chains@[b as int];
            assert(chain_ok(ps, dir_pages(n as int), self.next_page as int, dir(ps, b as int), c));
            assert forall|j: int| 0 <= j < c.len() implies hash_pages::page_items(ps[#[trigger] c[j]]) is Some by {
                assert(linked(ps, c, j));
            }
            lemma_chain_pack(ps, dir_pages(n as int), self.next_page as int, c);
            assert(bucket_ok(chain_items(ps, self.chains@[b as int]), b as int, n));
            assert forall|a: int| 0 <= a < es@.len() implies (#[trigger] es@[a]).hash == hash_of(es@[a].key@) by {
                assert(before[a] == es@[a]@);
                assert(belongs(before[a], b as int, n));
            }
        }
        let at: usize = HashTable::find(&es, h, key);
        if at < es.len() {
            let _ = es.remove(at);
            proof {
                assert(before[at as int].key == key@);
                assert(held(before, key@));
                assert(place_of(before, key@) == at);
                assert(hash_pages::items(es@) =~= without_key(before, key@));
                hash_pages::lemma_pack_remove(before, at as int);
            }
        }
        let ghost all = hash_pages::items(es@);
        proof {
            lemma_delete(before, key@, b as int, n);
            assert(hash_pages::all_fit(all)) by {
                assert forall|i: int| 0 <= i < all.len() implies hash_pages::fits(#[trigger] all[i]) by {
                    if held(before, key@) {
                        let m = place_of(before, key@);
                        if i < m {
                            assert(hash_pages::fits(before[i]));
                        } else {
                            assert(hash_pages::fits(before[i + 1]));
                        }
                    } else {
                        assert(hash_pages::fits(before[i]));
                    }
                }
            }
        }
        self.write_chain(b, &es);
        proof {
            lemma_changed(*old(self), *self, b, key@);
        }
    }
}

/// The first pages of a chain hold the first of its entries.
proof fn lemma_chain_prefix(ps: Seq<Seq<u8>>, c: Seq<int>, j: int)
    requires
        0 <= j <= c.len(),
    ensures
        chain_items(ps, c.take(j)).len() <= chain_items(ps, c).len(),
        forall|a: int|
            0 <= a < chain_items(ps, c.take(j)).len() ==> #[trigger] chain_items(ps, c.take(j))[a] == chain_items(
                ps,
                c,
            )[a],
    decreases c.len() - j,
{
    if j == c.len() {
        assert(c.take(j) =~= c);
    } else {
        lemma_chain_prefix(ps, c, j + 1);
        lemma_chain_step(ps, c, j);
        let x = chain_items(ps, c.take(j));
        let y = chain_items(ps, c.take(j + 1));
        assert forall|a: int| 0 <= a < x.len() implies #[trigger] x[a] == chain_items(ps, c)[a] by {
            assert(y[a] == x[a]);
        }
    }
}

/// Setting the value of a key of the bucket keeps the bucket in order.
proof fn lemma_put(es: Seq<Item>, key: Seq<u8>, value: Seq<u8>, b: int, n: u64)
    requires
        bucket_ok(es, b, n),
        bucket(hash_of(key), n) == b,
    ensures
        bucket_ok(with_value(es, key, value), b, n),
        held(with_value(es, key, value), key),
        with_value(es, key, value)[place_of(with_value(es, key, value), key)].value == value,
        forall|k: Seq<u8>| k != key ==> (#[trigger] held(with_value(es, key, value), k) == held(es, k)),
        forall|k: Seq<u8>|
            k != key && held(es, k) ==> with_value(es, key, value)[#[trigger] place_of(with_value(es, key, value), k)]
                == es[place_of(es, k)],
{
    let fs = with_value(es, key, value);
    let m = if held(es, key) {
        place_of(es, key)
    } else {
        es.len() as int
    };
    assert(fs[m].key == key);
    assert(held(fs, key));
    assert forall|a: int| 0 <= a < fs.len() implies belongs(#[trigger] fs[a], b, n) by {
        if a != m {
            assert(belongs(es[a], b, n));
        }
    }
    assert forall|x: int, y: int| 0 <= x < fs.len() && 0 <= y < fs.len() && (#[trigger] fs[x]).key == (
    #[trigger] fs[y]).key implies x == y by {
        if x != m {
            assert(fs[x] == es[x]);
        }
        if y != m {
            assert(fs[y] == es[y]);
        }
        if x == m && y != m {
            assert(es[y].key == key);
        }
        if y == m && x != m {
            assert(es[x].key == key);
        }
    }
    assert(place_of(fs, key) == m);
    assert forall|k: Seq<u8>| k != key implies (#[trigger] held(fs, k) == held(es, k)) by {
        if held(fs, k) {
            let a = place_of(fs, k);
            assert(fs[a].key == k);
            assert(es[a].key == k);
        }
        if held(es, k) {
            let a = place_of(es, k);
            assert(es[a].key == k);
            assert(fs[a].key == k);
        }
    }
    assert forall|k: Seq<u8>| k != key && held(es, k) implies fs[#[trigger] place_of(fs, k)] == es[place_of(
        es,
        k,
    )] by {
        assert(held(fs, k));
        let a = place_of(fs, k);
        assert(fs[a].key == k);
        assert(es[a].key == k);
    }
}

/// Removing a key keeps the bucket in order.
proof fn lemma_delete(es: Seq<Item>, key: Seq<u8>, b: int, n: u64)
    requires
        bucket_ok(es, b, n),
    ensures
        bucket_ok(without_key(es, key), b, n),
        !held(without_key(es, key), key),
        forall|k: Seq<u8>| k != key ==> (#[trigger] held(without_key(es, key), k) == held(es, k)),
        forall|k: Seq<u8>|
            k != key && held(es, k) ==> without_key(es, key)[#[trigger] place_of(without_key(es, key), k)]
                == es[place_of(es, k)],
{
    let fs = without_key(es, key);
    if held(es, key) {
        let m = place_of(es, key);
        assert(es[m].key == key);
        assert forall|a: int| 0 <= a < fs.len() implies belongs(#[trigger] fs[a], b, n) by {
            assert(belongs(es[if a < m { a } else { a + 1 }], b, n));
        }
        assert forall|x: int, y: int| 0 <= x < fs.len() && 0 <= y < fs.len() && (#[trigger] fs[x]).key == (
        #[trigger] fs[y]).key implies x == y by {
            let x2 = if x < m { x } else { x + 1 };
            let y2 = if y < m { y } else { y + 1 };
            assert(es[x2].key == es[y2].key);
        }
        if held(fs, key) {
            let a = place_of(fs, key);
            assert(fs[a].key == key);
            let a2 = if a < m { a } else { a + 1 };
            assert(es[a2].key == es[m].key);
        }
        assert forall|k: Seq<u8>| k != key implies (#[trigger] held(fs, k) == held(es, k)) by {
            if held(fs, k) {
                let a = place_of(fs, k);
                assert(fs[a].key == k);
                assert(es[if a < m { a } else { a + 1 }].key == k);
            }
            if held(es, k) {
                let a = place_of(es, k);
                assert(es[a].key == k);
                assert(fs[if a < m { a } else { a - 1 }].key == k);
            }
        }
        assert forall|k: Seq<u8>| k != key && held(es, k) implies fs[#[trigger] place_of(fs, k)] == es[place_of(
            es,
            k,
        )] by {
            assert(held(fs, k));
            let a = place_of(fs, k);
            assert(fs[a].key == k);
            let a2 = if a < m { a } else { a + 1 };
            assert(es[a2].key == k);
            assert(es[place_of(es, k)].key == k);
        }
    }
}

/// A page holds no more than 291 entries.
proof fn lemma_many(es: Seq<Item>)
    requires
        hash_pages::all_fit(es),
    ensures
        14 * es.len() <= 4086 * (hash_pages::pack(es).0 - 1) + hash_pages::pack(es).1 - 10,
        10 <= hash_pages::pack(es).1 <= PAGE_SIZE,
    decreases es.len(),
{
    if es.len() > 0 {
        let d = es.drop_last();
        assert forall|i: int| 0 <= i < d.len() implies hash_pages::fits(#[trigger] d[i]) by {
            assert(d[i] == es[i]);
        }
        lemma_many(d);
        assert(hash_pages::fits(es[es.len() - 1]));
    }
}

/// What the table holds after one bucket has changed in one key.
proof fn lemma_changed(a: HashTable, t: HashTable, b: u64, key: Seq<u8>)
    requires
        a.wf(),
        t.shaped(),
        t.bucket_count == a.bucket_count,
        b == bucket(hash_of(key), a.bucket_count),
        b < a.bucket_count,
        bucket_ok(t.bucket_items(b as int), b as int, a.bucket_count),
        forall|i: int| 0 <= i < a.bucket_count && i != b ==> #[trigger] t.bucket_items(i) == a.bucket_items(i),
        forall|k: Seq<u8>|
            k != key ==> (#[trigger] held(t.bucket_items(b as int), k) == held(a.bucket_items(b as int), k)),
        forall|k: Seq<u8>|
            k != key && held(a.bucket_items(b as int), k) ==> t.bucket_items(b as int)[#[trigger] place_of(
                t.bucket_items(b as int),
                k,
            )] == a.bucket_items(b as int)[place_of(a.bucket_items(b as int), k)],
    ensures
        t.wf(),
        t@.remove(key) == a@.remove(key),
        t@.contains_key(key) == held(t.bucket_items(b as int), key),
        t@.contains_key(key) ==> t@[key] == t.bucket_items(b as int)[place_of(t.bucket_items(b as int), key)].value,
        !t@.contains_key(key) ==> t@ == a@.remove(key),
        t@.contains_key(key) ==> t@ == a@.insert(key, t@[key]),
{
    let n = a.bucket_count;
    assert forall|i: int| 0 <= i < n implies bucket_ok(chain_items(t.ps(), #[trigger] t.chains@[i]), i, n) by {
        if i == b {
            assert(t.bucket_items(b as int) == chain_items(t.ps(), t.chains@[i]));
        } else {
            assert(bucket_ok(chain_items(a.ps(), a.chains@[i]), i, n));
            assert(t.bucket_items(i) == a.bucket_items(i));
        }
    }
    assert forall|k: Seq<u8>| k != key implies (#[trigger] t@.contains_key(k) == a@.contains_key(k)) && (a@.contains_key(
        k,
    ) ==> t@[k] == a@[k]) by {
        let h = hash_of(k);
        let m = (n - 1) as u64;
        assert(h & m <= m) by (bit_vector);
        let i = bucket(h, n) as int;
        if i != b {
            assert(t.bucket_items(i) == a.bucket_items(i));
        } else {
            assert(held(t.bucket_items(b as int), k) == held(a.bucket_items(b as int), k));
        }
    }
    assert(t@.remove(key) =~= a@.remove(key));
    if t@.contains_key(key) {
        assert(t@ =~= a@.insert(key, t@[key]));
    } else {
        assert(t@ =~= a@.remove(key));
    }
}

/// How far a page that starts with entry `from` reaches, as packing counts.
proof fn lemma_step_pack(all: Seq<Item>, from: int, end: int, j: int)
    requires
        0 <= from <= end <= all.len(),
        from < all.len() ==> from < end,
        0 <= j,
        j == 0 ==> from == 0,
        j > 0 ==> from > 0 && hash_pages::pack(all.take(from)).0 == j,
        hash_pages::pack(all.take(end)).0 == hash_pages::pack(all.take(from)).0 + (if from == 0 {
            0int
        } else {
            1int
        }),
    ensures
        hash_pages::pack(all.take(end)).0 == j + 1,
{
    if j == 0 {
        assert(all.take(0) =~= Seq::empty());
    }
}

/// Changing the offset that stands in a page leaves its entries.
proof fn lemma_relink(q: Seq<u8>, q2: Seq<u8>)
    requires
        q.len() == PAGE_SIZE,
        q2.len() == PAGE_SIZE,
        hash_pages::page_items(q) is Some,
        forall|i: int| 0 <= i < PAGE_SIZE && !(2 <= i < 10) ==> q[i] == q2[i],
    ensures
        hash_pages::page_items(q2) == hash_pages::page_items(q),
{
    let n = le::u16_at(q, 0) as nat;
    le::lemma_u16_same(q, q2, 0, 0);
    hash_pages::lemma_parse_end(q, HEADER_SIZE as int, n);
    hash_pages::lemma_parse_same(
        q,
        q2,
        HEADER_SIZE as int,
        n,
        HEADER_SIZE + hash_pages::sizes(hash_pages::page_items(q)->Some_0),
    );
}

/// The pages before page `j` still hold what they held.
proof fn lemma_done(ps: Seq<Seq<u8>>, qs: Seq<Seq<u8>>, c: Seq<int>, j: int)
    requires
        0 <= j < c.len(),
        c.no_duplicates(),
        forall|k: int| 0 <= k < c.len() && k != j ==> qs[#[trigger] c[k]] == ps[c[k]],
    ensures
        chain_items(qs, c.take(j)) == chain_items(ps, c.take(j)),
{
    assert forall|k: int| 0 <= k < c.take(j).len() implies ps[#[trigger] c.take(j)[k]] == qs[c.take(j)[k]] by {
        assert(c[k] == c.take(j)[k]);
    }
    lemma_frame(ps, qs, c.take(j));
}

/// Page `j` was filled anew; the chain goes on as before.
proof fn lemma_refill(ps: Seq<Seq<u8>>, qs: Seq<Seq<u8>>, lo: int, hi: int, start: u64, c: Seq<int>, j: int)
    requires
        chain_ok(ps, lo, hi, start, c),
        0 <= j < c.len(),
        0 <= lo,
        hi <= ps.len(),
        c.no_duplicates(),
        exists|q: Seq<u8>| qs == #[trigger] ps.update(c[j], q),
        hash_pages::page_items(qs[c[j]]) is Some,
        hash_pages::overflow(qs[c[j]]) == hash_pages::overflow(ps[c[j]]),
    ensures
        chain_ok(qs, lo, hi, start, c),
        forall|k: int| 0 <= k < c.len() && k != j ==> qs[#[trigger] c[k]] == ps[c[k]],
{
    assert forall|k: int| 0 <= k < c.len() implies #[trigger] linked(qs, c, k) by {
        assert(linked(ps, c, k));
        assert(lo <= c[k] < hi);
        if k != j {
            assert(c[k] != c[j]);
        }
    }
}

/// Page `j` was filled anew and ends the chain.
proof fn lemma_cut(ps: Seq<Seq<u8>>, qs: Seq<Seq<u8>>, lo: int, hi: int, start: u64, c: Seq<int>, j: int)
    requires
        chain_ok(ps, lo, hi, start, c),
        0 <= j < c.len(),
        0 <= lo,
        hi <= ps.len(),
        c.no_duplicates(),
        exists|q: Seq<u8>| qs == #[trigger] ps.update(c[j], q),
        hash_pages::page_items(qs[c[j]]) is Some,
        hash_pages::overflow(qs[c[j]]) == 0,
    ensures
        chain_ok(qs, lo, hi, start, c.take(j + 1)),
        forall|k: int| 0 <= k < c.len() && k != j ==> qs[#[trigger] c[k]] == ps[c[k]],
{
    let d = c.take(j + 1);
    assert forall|k: int| 0 <= k < d.len() implies lo <= #[trigger] d[k] < hi by {
        assert(d[k] == c[k]);
    }
    assert forall|k: int| 0 <= k < d.len() implies #[trigger] linked(qs, d, k) by {
        assert(linked(ps, c, k));
        assert(lo <= c[k] < hi);
        if k != j {
            assert(c[k] != c[j]);
        }
    }
}

/// The last page was filled anew and page `hi` hung behind it.
proof fn lemma_extend(ps: Seq<Seq<u8>>, qs: Seq<Seq<u8>>, lo: int, hi: int, start: u64, c: Seq<int>)
    requires
        chain_ok(ps, lo, hi, start, c),
        0 <= lo,
        hi < ps.len(),
        c.no_duplicates(),
        exists|q: Seq<u8>, z: Seq<u8>| qs == #[trigger] ps.update(hi, z).update(c.last(), q),
        hash_pages::page_items(qs[c.last()]) is Some,
        hash_pages::overflow(qs[c.last()]) == PAGE_SIZE * hi,
        hash_pages::page_items(qs[hi]) is Some,
        hash_pages::overflow(qs[hi]) == 0,
    ensures
        chain_ok(qs, lo, hi + 1, start, c.push(hi)),
        c.push(hi).no_duplicates(),
        forall|k: int| 0 <= k < c.len() - 1 ==> qs[#[trigger] c[k]] == ps[c[k]],
{
    let d = c.push(hi);
    assert(lo <= c[0] < hi);
    assert forall|k: int| 0 <= k < d.len() implies lo <= #[trigger] d[k] < hi + 1 by {
        if k < c.len() {
            assert(lo <= c[k] < hi);
        }
    }
    assert forall|k: int| 0 <= k < d.len() implies #[trigger] linked(qs, d, k) by {
        if k < c.len() {
            assert(linked(ps, c, k));
            assert(lo <= c[k] < hi);
            if k != c.len() - 1 {
                assert(c[k] != c[c.len() - 1]);
            }
        }
    }
    assert forall|a: int, b: int| 0 <= a < d.len() && 0 <= b < d.len() && a != b implies d[a] != d[b] by {
        if a < c.len() {
            assert(c[a] < hi);
        }
        if b < c.len() {
            assert(c[b] < hi);
        }
    }
}

/// A chain is no longer than the pages it may use.
proof fn lemma_chain_short(cs: Seq<Seq<int>>, b: int, lo: int, hi: int)
    requires
        0 <= b < cs.len(),
        apart(cs),
        0 <= lo <= hi,
        forall|j: int| 0 <= j < cs[b].len() ==> lo <= #[trigger] cs[b][j] < hi,
    ensures
        cs[b].no_duplicates(),
        cs[b].len() <= hi - lo,
{
    let c = cs[b];
    assert forall|i: int, j: int| 0 <= i < c.len() && 0 <= j < c.len() && i != j implies c[i] != c[j] by {
        assert(cs[b][i] != cs[b][j]);
    }
    lemma_short(c, lo, hi);
}

proof fn lemma_short(c: Seq<int>, lo: int, hi: int)
    requires
        lo <= hi,
        c.no_duplicates(),
        forall|j: int| 0 <= j < c.len() ==> lo <= #[trigger] c[j] < hi,
    ensures
        c.len() <= hi - lo,
{
    c.unique_seq_to_set();
    let s = vstd::set_lib::set_int_range(lo, hi);
    vstd::set_lib::lemma_int_range(lo, hi);
    assert(c.to_set().subset_of(s));
    vstd::set_lib::lemma_len_subset(c.to_set(), s);
}

/// Appends the entries of `more`.
fn push_all(all: &mut Vec<Entry>, more: Vec<Entry>)
    ensures
        hash_pages::items(final(all)@) == hash_pages::items(old(all)@) + hash_pages::items(more@),
{
    let ghost a = all@;
    let mut more = more;
    let ghost m = more@;
    all.append(&mut more);
    assert(hash_pages::items(all@) =~= hash_pages::items(a) + hash_pages::items(m));
}


/// The pages of a file. Bytes behind the last whole page do not count.
pub open spec fn pages_of(image: Seq<u8>) -> Seq<Seq<u8>> {
    Seq::new(image.len() / 4096, |i: int| image.subrange(4096 * i, 4096 * i + 4096))
}

/// The pages hold a table of `n` buckets.
pub open spec fn is_table(ps: Seq<Seq<u8>>, n: u64, cs: Seq<Seq<int>>) -> bool {
    shape(ps, n as int, ps.len() as int, cs) && sound(ps, n, cs)
}

/// The chains that the pages hold.
pub open spec fn chains_of(ps: Seq<Seq<u8>>, n: u64) -> Seq<Seq<int>> {
    choose|cs: Seq<Seq<int>>| is_table(ps, n, cs)
}

/// The file holds a table of `n` buckets.
pub open spec fn valid_image(image: Seq<u8>, n: u64) -> bool {
    exists|cs: Seq<Seq<int>>| is_table(pages_of(image), n, cs)
}

/// Page `p` stands in a chain.
pub open spec fn stands(cs: Seq<Seq<int>>, p: int) -> bool {
    exists|i: int, j: int| 0 <= i < cs.len() && 0 <= j < cs[i].len() && #[trigger] cs[i][j] == p
}

spec fn marks(used: Seq<bool>, cs: Seq<Seq<int>>) -> bool {
    forall|p: int| 0 <= p < used.len() ==> (#[trigger] used[p] <==> stands(cs, p))
}

/// Two chains from the same start are the same.
proof fn lemma_same_chain(ps: Seq<Seq<u8>>, lo: int, hi: int, start: u64, c: Seq<int>, d: Seq<int>, j: int)
    requires
        chain_ok(ps, lo, hi, start, c),
        chain_ok(ps, lo, hi, start, d),
        0 < lo,
        0 <= j < c.len(),
    ensures
        j < d.len(),
        c[j] == d[j],
        c.len() == j + 1 ==> d.len() == j + 1,
    decreases j,
{
    if j > 0 {
        lemma_same_chain(ps, lo, hi, start, c, d, j - 1);
        assert(linked(ps, c, j - 1));
        assert(linked(ps, d, j - 1));
        assert(lo <= c[j] < hi);
        if j < d.len() {
            assert(lo <= d[j] < hi);
        }
    } else {
        assert(c[0] == d[0]);
    }
    assert(linked(ps, c, j));
    assert(linked(ps, d, j));
    if j + 1 < d.len() {
        assert(lo <= d[j + 1] < hi);
    }
}

/// The pages hold one table at most.
pub proof fn chains_are_unique(ps: Seq<Seq<u8>>, n: u64, hi: int, ki: int, cs: Seq<Seq<int>>, ds: Seq<Seq<int>>)
    requires
        shape(ps, n as int, hi, cs),
        shape(ps, n as int, ki, ds),
    ensures
        cs == ds,
{
    assert forall|i: int| 0 <= i < n implies cs[i] == ds[i] by {
        lemma_wider(ps, n, hi, cs, i);
        lemma_wider(ps, n, ki, ds, i);
        let lo = dir_pages(n as int);
        let top = ps.len() as int;
        let s = dir(ps, i);
        lemma_same_chain(ps, lo, top, s, cs[i], ds[i], cs[i].len() - 1);
        assert forall|j: int| 0 <= j < cs[i].len() implies cs[i][j] == ds[i][j] by {
            lemma_same_chain(ps, lo, top, s, cs[i], ds[i], j);
        }
        assert(cs[i] =~= ds[i]);
    }
    assert(cs =~= ds);
}

proof fn lemma_wider(ps: Seq<Seq<u8>>, n: u64, hi: int, cs: Seq<Seq<int>>, i: int)
    requires
        shape(ps, n as int, hi, cs),
        0 <= i < n,
    ensures
        chain_ok(ps, dir_pages(n as int), ps.len() as int, dir(ps, i), cs[i]),
{
    let c = cs[i];
    let lo = dir_pages(n as int);
    assert(chain_ok(ps, lo, hi, dir(ps, i), c));
    assert forall|j: int| 0 <= j < c.len() implies lo <= #[trigger] c[j] < ps.len() by {
        assert(lo <= c[j] < hi);
    }
}

/// A table that was closed holds the same when its file is opened again.
pub proof fn reopen_keeps_contents(t: HashTable, image: Seq<u8>)
    requires
        t.wf(),
        pages_of(image) == t.ps(),
    ensures
        valid_image(image, t.bucket_count()),
        chains_of(pages_of(image), t.bucket_count()) == t.chains(),
        contents(pages_of(image), t.bucket_count(), chains_of(pages_of(image), t.bucket_count())) == t@,
{
    let ps = t.ps();
    let n = t.bucket_count;
    let cs = t.chains@;
    assert forall|i: int| 0 <= i < n implies chain_ok(ps, dir_pages(n as int), ps.len() as int, dir(ps, i), #[trigger] cs[i]) by {
        lemma_wider(ps, n, t.next_page as int, cs, i);
    }
    assert(is_table(ps, n, cs));
    chains_are_unique(ps, n, ps.len() as int, ps.len() as int, cs, chains_of(ps, n));
}

/// A table that is opened from the pages of another has room for what that one has room for.
pub proof fn reopening_loses_no_room(t: HashTable, r: HashTable, key: Seq<u8>, value: Seq<u8>)
    requires
        t.wf(),
        r.wf(),
        r.bucket_count() == t.bucket_count(),
        r.ps() == t.ps(),
        r.chains() == t.chains(),
        stands(r.chains(), r.ps().len() - r.free_pages() - 1),
    ensures
        r.free_pages() >= t.free_pages(),
        t.has_room(key, value) ==> r.has_room(key, value),
{
    let top = r.ps().len() - r.free_pages() - 1;
    let cs = t.chains@;
    assert forall|i: int, j: int| 0 <= i < cs.len() && 0 <= j < cs[i].len() implies #[trigger] cs[i][j] < t.next_page by {
        assert(chain_ok(t.ps(), dir_pages(t.bucket_count as int), t.next_page as int, dir(t.ps(), i), cs[i]));
    }
}

proof fn lemma_mark(used: Seq<bool>, built: Seq<Seq<int>>, c: Seq<int>, p: int)
    requires
        marks(used, built.push(c)),
        apart(built.push(c)),
        0 <= p < used.len(),
        !used[p],
    ensures
        marks(used.update(p, true), built.push(c.push(p))),
        apart(built.push(c.push(p))),
{
    let cs = built.push(c);
    let ds = built.push(c.push(p));
    let b = built.len() as int;
    assert(!stands(cs, p));
    assert forall|q: int| 0 <= q < used.len() implies (#[trigger] used.update(p, true)[q] <==> stands(ds, q)) by {
        if q == p {
            assert(ds[b][c.len() as int] == p);
        } else {
            assert(used[q] <==> stands(cs, q));
            if stands(cs, q) {
                let (i, j) = choose|i: int, j: int| 0 <= i < cs.len() && 0 <= j < cs[i].len() && #[trigger] cs[i][j] == q;
                assert(ds[i][j] == q);
            }
            if stands(ds, q) {
                let (i, j) = choose|i: int, j: int| 0 <= i < ds.len() && 0 <= j < ds[i].len() && #[trigger] ds[i][j] == q;
                assert(cs[i][j] == q);
            }
        }
    }
    assert forall|i: int, j: int, k: int, l: int|
        #![trigger ds[i][j], ds[k][l]]
        0 <= i < ds.len() && 0 <= j < ds[i].len() && 0 <= k < ds.len() && 0 <= l < ds[k].len() && ds[i][j] == ds[k][l]
        implies i == k && j == l by {
        let new1 = i == b && j == c.len();
        let new2 = k == b && l == c.len();
        if !new1 && !new2 {
            assert(cs[i][j] == cs[k][l]);
        } else if new1 && !new2 {
            assert(cs[k][l] == p);
        } else if new2 && !new1 {
            assert(cs[i][j] == p);
        }
    }
}

/// The entries of a page belong in bucket `b`, and none has a key of those before or of another.
fn entries_belong(es: &Vec<Entry>, seen: &Vec<Entry>, b: u64, n: u64) -> (r: bool)
    requires
        bucket_ok(hash_pages::items(seen@), b as int, n),
        n > 0,
    ensures
        r == bucket_ok(hash_pages::items(seen@) + hash_pages::items(es@), b as int, n),
{
    let ghost before = hash_pages::items(seen@);
    let ghost all = before + hash_pages::items(es@);
    let mut i: usize = 0;
    assert(all.take(before.len() as int) =~= before);
    while i < es.len()
        invariant
            i <= es@.len(),
            n > 0,
            before == hash_pages::items(seen@),
            all == before + hash_pages::items(es@),
            bucket_ok(all.take(before.len() + i), b as int, n),
        decreases es.len() - i,
    {
        let ghost at = before.len() + i;
        assert(all[at] == es@[i as int]@);
        let h: u64 = hash_key(&es[i].key);
        if h != es[i].hash || bucket_of(h, n) != b {
            assert(!belongs(all[at], b as int, n));
            return false;
        }
        if clash(seen, seen.len(), &es[i].key) {
            proof {
                let a = choose|a: int| 0 <= a < seen@.len() && (#[trigger] seen@[a]).key@ == es@[i as int].key@;
                assert(all[a] == before[a]);
                assert(all[a].key == all[at].key);
            }
            return false;
        }
        if clash(es, i, &es[i].key) {
            proof {
                let a = choose|a: int| 0 <= a < i && (#[trigger] es@[a]).key@ == es@[i as int].key@;
                assert(all[before.len() + a] == es@[a]@);
                assert(all[before.len() + a].key == all[at].key);
            }
            return false;
        }
        proof {
            let now = all.take(at + 1);
            let was = all.take(at);
            assert forall|a: int| 0 <= a < now.len() implies belongs(#[trigger] now[a], b as int, n) by {
                if a < at {
                    assert(belongs(was[a], b as int, n));
                }
            }
            assert forall|x: int, y: int| 0 <= x < now.len() && 0 <= y < now.len() && (#[trigger] now[x]).key == (
            #[trigger] now[y]).key implies x == y by {
                if x < at && y < at {
                    assert(was[x].key == was[y].key);
                } else if x < at && y == at {
                    lemma_no_clash(seen@, es@, i as int, x);
                } else if y < at && x == at {
                    lemma_no_clash(seen@, es@, i as int, y);
                }
            }
        }
        i = i + 1;
    }
    assert(all.take(before.len() + i) =~= all);
    true
}

proof fn lemma_no_clash(seen: Seq<Entry>, es: Seq<Entry>, i: int, x: int)
    requires
        0 <= i < es.len(),
        0 <= x < seen.len() + i,
        forall|a: int| 0 <= a < seen.len() ==> (#[trigger] seen[a]).key@ != es[i].key@,
        forall|a: int| 0 <= a < i ==> (#[trigger] es[a]).key@ != es[i].key@,
    ensures
        (hash_pages::items(seen) + hash_pages::items(es))[x].key != (hash_pages::items(seen) + hash_pages::items(
            es,
        ))[seen.len() + i].key,
{
    if x < seen.len() {
        assert(seen[x].key@ != es[i].key@);
    } else {
        assert(es[x - seen.len()].key@ != es[i].key@);
    }
}

/// One of the first `n` entries has the key.
fn clash(es: &Vec<Entry>, n: usize, key: &Vec<u8>) -> (r: bool)
    requires
        n <= es@.len(),
    ensures
        r == exists|a: int| 0 <= a < n && (#[trigger] es@[a]).key@ == key@,
{
    let mut i: usize = 0;
    while i < n
        invariant
            i <= n <= es@.len(),
            forall|a: int| 0 <= a < i ==> (#[trigger] es@[a]).key@ != key@,
        decreases n - i,
    {
        if lex::same_bytes(&es[i].key, key) {
            return true;
        }
        i = i + 1;
    }
    false
}

/// Walks along the chain of bucket `b`, marks its pages and raises `top` above them. Gives the
/// chain, or `None` where it is none.
fn walk_chain(
    pages: &Vec<Vec<u8>>,
    n: u64,
    b: u64,
    first: usize,
    used: &mut Vec<bool>,
    top: &mut usize,
    Ghost(built): Ghost<Seq<Seq<int>>>,
) -> (r: Option<Ghost<Seq<int>>>)
    requires
        sized(page_bytes(pages@)),
        old(used)@.len() == pages@.len(),
        marks(old(used)@, built),
        apart(built),
        built.len() == b,
        b < n,
        first == dir_pages(n as int),
        0 < first <= pages@.len(),
        first <= *old(top) <= pages@.len(),
        *old(top) == first || stands(built, *old(top) - 1),
        forall|p: int| stands(built, p) ==> p < *old(top),
    ensures
        match r {
            Some(c) => {
                let ps = page_bytes(pages@);
                &&& chain_ok(ps, first as int, *final(top) as int, dir(ps, b as int), c@)
                &&& final(used)@.len() == pages@.len()
                &&& marks(final(used)@, built.push(c@))
                &&& apart(built.push(c@))
                &&& bucket_ok(chain_items(ps, c@), b as int, n)
                &&& *old(top) <= *final(top) <= pages@.len()
                &&& stands(built.push(c@), *final(top) - 1)
                &&& forall|p: int| stands(built.push(c@), p) ==> p < *final(top)
            },
            None => forall|cs: Seq<Seq<int>>|
                is_table(page_bytes(pages@), n, cs) ==> (#[trigger] cs.take(b as int)) != built,
        },
{
    let ghost ps = page_bytes(pages@);
    let ghost total = pages@.len() as int;
    let ghost truth = choose|cs: Seq<Seq<int>>| is_table(ps, n, cs) && #[trigger] cs.take(b as int) == built;
    let ghost known = is_table(ps, n, truth) && truth.take(b as int) == built;
    let ghost mut c: Seq<int> = Seq::empty();
    let mut seen: Vec<Entry> = Vec::new();
    let at: usize = (b / 512) as usize;
    assert(ps[at as int] == pages@[at as int]@);
    assert(pages@.len() == pages.len());
    let mut off: u64 = le::rd_u64(&pages[at], 8 * (b % 512) as usize);
    proof {
        assert(off == dir(ps, b as int));
        assert(hash_pages::items(seen@) =~= Seq::empty());
        assert(chain_items(ps, c) =~= Seq::empty());
        lemma_empty_chain(built);
        if known {
            assert(chain_ok(ps, first as int, total, dir(ps, b as int), truth[b as int]));
            assert(truth[b as int].take(0) =~= c);
        }
    }
    loop
        invariant_except_break
            c.len() == 0 ==> off == dir(ps, b as int),
            c.len() > 0 ==> off != 0 && off == hash_pages::overflow(ps[c.last()]),
            known ==> c.len() < truth[b as int].len() && off == PAGE_SIZE * truth[b as int][c.len() as int],
            forall|j: int| 0 <= j < c.len() - 1 ==> #[trigger] linked(ps, c, j),
            c.len() > 0 ==> hash_pages::page_items(ps[c.last()]) is Some,
        invariant
            ps == page_bytes(pages@),
            total == pages@.len(),
            pages@.len() <= usize::MAX,
            sized(ps),
            0 < first <= total,
            first == dir_pages(n as int),
            b < n,
            built.len() == b,
            used@.len() == total,
            marks(used@, built.push(c)),
            apart(built.push(c)),
            first <= *top <= total,
            *old(top) <= *top,
            c.len() == 0 ==> *top == *old(top),
            *top == first || stands(built.push(c), *top - 1),
            forall|p: int| stands(built.push(c), p) ==> p < *top,
            forall|j: int| 0 <= j < c.len() ==> first <= #[trigger] c[j] < total,
            c.len() > 0 ==> dir(ps, b as int) == PAGE_SIZE * c[0],
            hash_pages::items(seen@) == chain_items(ps, c),
            bucket_ok(hash_pages::items(seen@), b as int, n),
            known == (is_table(ps, n, truth) && truth.take(b as int) == built),
            truth == (choose|cs: Seq<Seq<int>>| is_table(ps, n, cs) && #[trigger] cs.take(b as int) == built),
            known ==> c.len() <= truth[b as int].len() && c == truth[b as int].take(c.len() as int),
        ensures
            chain_ok(ps, first as int, total, dir(ps, b as int), c),
        decreases total - c.len(),
    {
        let ghost j = c.len() as int;
        proof {
            if known {
                lemma_truth_page(ps, n, truth, b as int, j);
                lemma_chain_step(ps, truth[b as int], j);
                lemma_chain_prefix(ps, truth[b as int], j + 1);
            }
            let cs = built.push(c);
            assert(cs[b as int] == c);
            lemma_chain_short(cs, b as int, first as int, total);
        }
        let page: u64 = off / 4096;
        if off % 4096 != 0 || page < first as u64 || page >= pages.len() as u64 {
            assert(!known);
            return None;
        }
        let p: usize = page as usize;
        if used[p] {
            proof {
                if known {
                    let cs = built.push(c);
                    assert(stands(cs, p as int));
                    let (i, l) = choose|i: int, l: int| 0 <= i < cs.len() && 0 <= l < cs[i].len() && #[trigger] cs[i][l] == p;
                    assert(truth[i][l] == cs[i][l]) by {
                        if i < b {
                            assert(truth.take(b as int)[i] == built[i]);
                        }
                    }
                    assert(truth[i][l] == truth[b as int][j]);
                    assert(false);
                }
            }
            return None;
        }
        assert(ps[p as int] == pages@[p as int]@);
        assert(ps[p as int].len() == PAGE_SIZE);
        let count: u16 = le::rd_u16(&pages[p], 0);
        let es = match hash_pages::read_items(&pages[p], count) {
            Some(es) => es,
            None => {
                assert(!known);
                return None;
            },
        };
        let ghost c2 = c.push(p as int);
        proof {
            assert(c2.drop_last() =~= c);
            assert(chain_items(ps, c2) == hash_pages::items(seen@) + hash_pages::items(es@));
            if known {
                assert(truth[b as int].take(j + 1) =~= c2);
            }
        }
        if !entries_belong(&es, &seen, b, n) {
            proof {
                if known {
                    assert(bucket_ok(chain_items(ps, truth[b as int]), b as int, n));
                    lemma_bucket_prefix(chain_items(ps, c2), chain_items(ps, truth[b as int]), b as int, n);
                }
            }
            return None;
        }
        push_all(&mut seen, es);
        proof {
            lemma_mark(used@, built, c, p as int);
            lemma_top(built, c, p as int, *top as int);
        }
        used.set(p, true);
        if p + 1 > *top {
            *top = p + 1;
        }
        off = le::rd_u64(&pages[p], 2);
        proof {
            assert forall|k: int| 0 <= k < c2.len() - 1 implies #[trigger] linked(ps, c2, k) by {
                if k < c.len() - 1 {
                    assert(linked(ps, c, k));
                    assert(c2[k + 1] == c[k + 1]);
                } else {
                    assert(c2[k] == c.last());
                }
            }
            if known {
                assert(linked(ps, truth[b as int], j));
            }
            c = c2;
        }
        if off == 0 {
            proof {
                assert forall|k: int| 0 <= k < c.len() implies #[trigger] linked(ps, c, k) by {
                    if k == c.len() - 1 {
                        assert(c[k] == c.last());
                    }
                }
            }
            break;
        }
    }
    proof {
        let cs = built.push(c);
        assert forall|k: int| 0 <= k < c.len() implies first <= #[trigger] c[k] < *top by {
            assert(cs[b as int][k] == c[k]);
            assert(stands(cs, c[k]));
        }
        assert(cs[b as int][0] == c[0]);
        assert(stands(cs, c[0]));
    }
    Some(Ghost(c))
}

proof fn lemma_empty_chain(built: Seq<Seq<int>>)
    requires
        apart(built),
    ensures
        apart(built.push(Seq::empty())),
        forall|p: int| #[trigger] stands(built.push(Seq::empty()), p) == stands(built, p),
{
    let ds = built.push(Seq::<int>::empty());
    assert forall|i: int, j: int, k: int, l: int|
        #![trigger ds[i][j], ds[k][l]]
        0 <= i < ds.len() && 0 <= j < ds[i].len() && 0 <= k < ds.len() && 0 <= l < ds[k].len() && ds[i][j] == ds[k][l]
        implies i == k && j == l by {
        assert(built[i][j] == built[k][l]);
    }
    assert forall|p: int| stands(ds, p) == stands(built, p) by {
        if stands(ds, p) {
            let (i, j) = choose|i: int, j: int| 0 <= i < ds.len() && 0 <= j < ds[i].len() && #[trigger] ds[i][j] == p;
            assert(built[i][j] == p);
        }
        if stands(built, p) {
            let (i, j) = choose|i: int, j: int| 0 <= i < built.len() && 0 <= j < built[i].len() && #[trigger] built[i][j] == p;
            assert(ds[i][j] == p);
        }
    }
}

/// The highest page with one more page in the last chain.
proof fn lemma_top(built: Seq<Seq<int>>, c: Seq<int>, p: int, top: int)
    requires
        forall|q: int| stands(built.push(c), q) ==> q < top,
    ensures
        forall|q: int| stands(built.push(c.push(p)), q) ==> q < top || q == p,
        stands(built.push(c.push(p)), p),
        stands(built.push(c), top - 1) ==> stands(built.push(c.push(p)), top - 1),
{
    let cs = built.push(c);
    let ds = built.push(c.push(p));
    assert(ds[built.len() as int][c.len() as int] == p);
    assert forall|q: int| stands(ds, q) implies q < top || q == p by {
        let (i, j) = choose|i: int, j: int| 0 <= i < ds.len() && 0 <= j < ds[i].len() && #[trigger] ds[i][j] == q;
        if !(i == built.len() && j == c.len()) {
            assert(cs[i][j] == q);
            assert(stands(cs, q));
        }
    }
    if stands(cs, top - 1) {
        let (i, j) = choose|i: int, j: int| 0 <= i < cs.len() && 0 <= j < cs[i].len() && #[trigger] cs[i][j] == top - 1;
        assert(ds[i][j] == top - 1);
    }
}

proof fn lemma_truth_page(ps: Seq<Seq<u8>>, n: u64, cs: Seq<Seq<int>>, b: int, j: int)
    requires
        is_table(ps, n, cs),
        0 <= b < n,
        0 <= j < cs[b].len(),
    ensures
        dir_pages(n as int) <= cs[b][j] < ps.len(),
        hash_pages::page_items(ps[cs[b][j]]) is Some,
        linked(ps, cs[b], j),
{
    assert(chain_ok(ps, dir_pages(n as int), ps.len() as int, dir(ps, b), cs[b]));
    assert(linked(ps, cs[b], j));
}

proof fn lemma_bucket_prefix(a: Seq<Item>, es: Seq<Item>, b: int, n: u64)
    requires
        bucket_ok(es, b, n),
        a.len() <= es.len(),
        forall|i: int| 0 <= i < a.len() ==> #[trigger] a[i] == es[i],
    ensures
        bucket_ok(a, b, n),
{
    assert forall|i: int| 0 <= i < a.len() implies belongs(#[trigger] a[i], b, n) by {
        assert(belongs(es[i], b, n));
    }
    assert forall|x: int, y: int| 0 <= x < a.len() && 0 <= y < a.len() && (#[trigger] a[x]).key == (#[trigger] a[y]).key
        implies x == y by {
        assert(es[x].key == es[y].key);
    }
}

/// The whole pages of a file.
fn split_pages(image: &Vec<u8>) -> (r: Vec<Vec<u8>>)
    ensures
        page_bytes(r@) == pages_of(image@),
{
    let total: usize = image.len() / PAGE_SIZE;
    let mut pages: Vec<Vec<u8>> = Vec::new();
    let mut i: usize = 0;
    while i < total
        invariant
            i <= total,
            total == image@.len() / 4096,
            image@.len() <= usize::MAX,
            pages@.len() == i,
            forall|k: int| 0 <= k < i ==> (#[trigger] pages@[k])@ == image@.subrange(4096 * k, 4096 * k + 4096),
        decreases total - i,
    {
        pages.push(le::copy_range(image, PAGE_SIZE * i, PAGE_SIZE * i + PAGE_SIZE));
        i = i + 1;
    }
    assert(page_bytes(pages@) =~= pages_of(image@));
    pages
}

impl HashTable {
    /// The table of `bucket_count` buckets that a file holds.
    pub fn open(image: &Vec<u8>, bucket_count: u64) -> (r: Result<HashTable, StorageError>)
        requires
            bucket_count > 0,
        ensures
            match r {
                Ok(t) => {
                    &&& valid_image(image@, bucket_count)
                    &&& t.wf()
                    &&& t.bucket_count() == bucket_count
                    &&& t.ps() == pages_of(image@)
                    &&& t.chains() == chains_of(pages_of(image@), bucket_count)
                    &&& t@ == contents(pages_of(image@), bucket_count, chains_of(pages_of(image@), bucket_count))
                    &&& stands(t.chains(), t.ps().len() - t.free_pages() - 1)
                },
                Err(e) => !valid_image(image@, bucket_count) && e == StorageError::InvalidData,
            },
    {
        let pages = split_pages(image);
        let ghost ps = page_bytes(pages@);
        let ghost truth = chains_of(ps, bucket_count);
        let ghost known = is_table(ps, bucket_count, truth);
        assert(pages@.len() == pages.len());
        assert(ps == pages_of(image@));
        assert(sized(ps)) by {
            assert forall|p: int| 0 <= p < ps.len() implies (#[trigger] ps[p]).len() == PAGE_SIZE by {
                assert(4096 * p + 4096 <= image@.len());
            }
        }
        if bucket_count > pages.len() as u64 {
            proof {
                if known {
                    lemma_enough_pages(ps, bucket_count, truth);
                }
            }
            return Err(StorageError::InvalidData);
        }
        let buckets: usize = bucket_count as usize;
        let first: usize = (buckets / DIR_PER_PAGE) + (if buckets % DIR_PER_PAGE == 0 {
            0
        } else {
            1
        });
        assert(first == dir_pages(bucket_count as int));
        if first > pages.len() {
            assert(!known);
            return Err(StorageError::InvalidData);
        }
        let mut used: Vec<bool> = vec![false; pages.len()];
        let mut top: usize = first;
        let ghost mut built: Seq<Seq<int>> = Seq::empty();
        let mut b: u64 = 0;
        proof {
            assert(truth.take(0) =~= built);
        }
        while b < bucket_count
            invariant
                b <= bucket_count,
                ps == page_bytes(pages@),
                sized(ps),
                known == is_table(ps, bucket_count, truth),
                ps == pages_of(image@),
                truth == chains_of(ps, bucket_count),
                used@.len() == pages@.len(),
                marks(used@, built),
                apart(built),
                built.len() == b,
                first == dir_pages(bucket_count as int),
                0 < first <= pages@.len(),
                first <= top <= pages@.len(),
                top == first || stands(built, top - 1),
                b > 0 ==> stands(built, top - 1),
                forall|p: int| stands(built, p) ==> p < top,
                forall|i: int| 0 <= i < b ==> chain_ok(ps, first as int, top as int, dir(ps, i), #[trigger] built[i]),
                forall|i: int| 0 <= i < b ==> bucket_ok(chain_items(ps, #[trigger] built[i]), i, bucket_count),
                known ==> truth.take(b as int) == built,
            decreases bucket_count - b,
        {
            let ghost was = top;
            match walk_chain(&pages, bucket_count, b, first, &mut used, &mut top, Ghost(built)) {
                None => {
                    assert(!known);
                    return Err(StorageError::InvalidData);
                },
                Some(found) => {
                    proof {
                        let c = found@;
                        let more = built.push(c);
                        assert forall|i: int| 0 <= i < b + 1 implies chain_ok(
                            ps,
                            first as int,
                            top as int,
                            dir(ps, i),
                            #[trigger] more[i],
                        ) by {
                            if i < b {
                                assert(chain_ok(ps, first as int, was as int, dir(ps, i), built[i]));
                                assert forall|j: int| 0 <= j < more[i].len() implies first <= #[trigger] more[i][j] < top by {
                                    assert(first <= built[i][j] < was);
                                }
                            }
                        }
                        assert forall|i: int| 0 <= i < b + 1 implies bucket_ok(
                            chain_items(ps, #[trigger] more[i]),
                            i,
                            bucket_count,
                        ) by {
                            if i < b {
                                assert(bucket_ok(chain_items(ps, built[i]), i, bucket_count));
                            }
                        }
                        if known {
                            let t = truth[b as int];
                            let total = ps.len() as int;
                            lemma_wider(ps, bucket_count, total, truth, b as int);
                            assert forall|j: int| 0 <= j < c.len() implies first <= #[trigger] c[j] < total by {
                                assert(first <= c[j] < top);
                            }
                            assert(chain_ok(ps, first as int, total, dir(ps, b as int), c));
                            lemma_same_chain(ps, first as int, total, dir(ps, b as int), c, t, c.len() - 1);
                            assert forall|j: int| 0 <= j < c.len() implies c[j] == t[j] by {
                                lemma_same_chain(ps, first as int, total, dir(ps, b as int), c, t, j);
                            }
                            assert(c =~= t);
                            assert(truth.take(b + 1) =~= more);
                        }
                        built = more;
                    }
                },
            }
            b = b + 1;
        }
        let t = HashTable { pages, bucket_count, next_page: top, chains: Ghost(built) };
        proof {
            assert(4096 * ps.len() <= image@.len());
            assert(image@.len() == image.len());
            assert(t.wf());
            reopen_keeps_contents(t, image@);
        }
        Ok(t)
    }

    /// The bytes of the table's file.
    pub fn image(&self) -> (r: Vec<u8>)
        requires
            self.wf(),
        ensures
            pages_of(r@) == self.ps(),
            r@.len() == PAGE_SIZE * self.ps().len(),
    {
        let mut out: Vec<u8> = Vec::new();
        let mut i: usize = 0;
        let ghost ps = self.ps();
        while i < self.pages.len()
            invariant
                i <= self.pages@.len(),
                ps == page_bytes(self.pages@),
                sized(ps),
                out@.len() == 4096 * i,
                forall|k: int| 0 <= k < i ==> out@.subrange(4096 * k, 4096 * k + 4096) == #[trigger] ps[k],
            decreases self.pages.len() - i,
        {
            let ghost before = out@;
            assert(ps[i as int] == self.pages@[i as int]@);
            assert(ps[i as int].len() == PAGE_SIZE);
            le::push_bytes(&mut out, &self.pages[i]);
            proof {
                assert forall|k: int| 0 <= k < i + 1 implies out@.subrange(4096 * k, 4096 * k + 4096)
                    == #[trigger] ps[k] by {
                    if k < i {
                        assert(out@.subrange(4096 * k, 4096 * k + 4096) =~= before.subrange(4096 * k, 4096 * k + 4096));
                    } else {
                        assert(out@.subrange(4096 * k, 4096 * k + 4096) =~= self.pages@[k]@);
                    }
                }
            }
            i = i + 1;
        }
        assert(pages_of(out@) =~= ps);
        out
    }
}

/// A table has a page for each of its buckets.
proof fn lemma_enough_pages(ps: Seq<Seq<u8>>, n: u64, cs: Seq<Seq<int>>)
    requires
        is_table(ps, n, cs),
    ensures
        n <= ps.len(),
{
    let firsts = Seq::new(n as nat, |i: int| cs[i][0]);
    assert forall|i: int| 0 <= i < n implies 0 <= #[trigger] firsts[i] < ps.len() by {
        assert(chain_ok(ps, dir_pages(n as int), ps.len() as int, dir(ps, i), cs[i]));
        assert(dir_pages(n as int) <= cs[i][0] < ps.len());
    }
    assert forall|i: int, j: int| 0 <= i < n && 0 <= j < n && i != j implies firsts[i] != firsts[j] by {
        assert(chain_ok(ps, dir_pages(n as int), ps.len() as int, dir(ps, i), cs[i]));
        assert(chain_ok(ps, dir_pages(n as int), ps.len() as int, dir(ps, j), cs[j]));
        assert(cs[i][0] == firsts[i]);
        assert(cs[j][0] == firsts[j]);
    }
    lemma_short(firsts, 0, ps.len() as int);
}

} // verus!
