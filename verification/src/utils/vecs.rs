//! Rearranging vectors.

use vstd::prelude::*;

verus! {

/// What `std::vec::Vec::capacity` gives: at least the length. How much more is up to the
/// allocator.
#[verifier::external_body]
pub(crate) fn capacity_of<T>(v: &Vec<T>) -> (r: usize)
    ensures
        r >= v@.len(),
{
    v.capacity()
}

/// The same elements in the other order.
pub fn reversed<T>(v: Vec<T>) -> (r: Vec<T>)
    ensures
        r@ == v@.reverse(),
{
    let ghost all = v@;
    let mut v: Vec<T> = v;
    let mut r: Vec<T> = Vec::with_capacity(v.len());
    while v.len() > 0
        invariant
            v@.len() <= all.len(),
            v@ == all.take(v@.len() as int),
            r@ == all.skip(v@.len() as int).reverse(),
        decreases v@.len(),
    {
        let ghost n = v@.len() as int;
        match v.pop() {
            Some(x) => {
                r.push(x);
                assert(all.take(n).drop_last() =~= all.take(n - 1));
                assert(r@ =~= all.skip(n - 1).reverse());
            },
            None => {},
        }
    }
    assert(all.skip(0) =~= all);
    r
}

/// The numbers that come with elements do not fall.
pub open spec fn by_number<T>(s: Seq<(u64, T)>) -> bool {
    forall|i: int, j: int| 0 <= i < j < s.len() ==> (#[trigger] s[i]).0 <= (#[trigger] s[j]).0
}

/// Sorts elements by the numbers that come with them.
pub fn sort_by_number<T>(v: Vec<(u64, T)>) -> (r: Vec<(u64, T)>)
    ensures
        by_number(r@),
        r@.to_multiset() == v@.to_multiset(),
        r@.len() == v@.len(),
{
    let ghost all = v@;
    let mut v: Vec<(u64, T)> = v;
    let mut r: Vec<(u64, T)> = Vec::with_capacity(v.len());
    proof {
        assert(all.take(all.len() as int) =~= all);
        assert(r@.to_multiset().add(all.to_multiset()) =~= all.to_multiset()) by {
            broadcast use vstd::seq_lib::group_to_multiset_ensures;

            assert(r@.to_multiset() =~= vstd::multiset::Multiset::empty());
        }
    }
    while v.len() > 0
        invariant
            by_number(r@),
            r@.len() + v@.len() == all.len(),
            r@.to_multiset().add(v@.to_multiset()) == all.to_multiset(),
        decreases v@.len(),
    {
        let ghost v0 = v@;
        let ghost r0 = r@;
        match v.pop() {
            Some(x) => {
                let mut i: usize = r.len();
                while i > 0 && r[i - 1].0 > x.0
                    invariant
                        0 <= i <= r@.len(),
                        r@ == r0,
                        by_number(r0),
                        forall|j: int| i <= j < r@.len() ==> (#[trigger] r@[j]).0 > x.0,
                    decreases i,
                {
                    i = i - 1;
                }
                let ghost y = x;
                r.insert(i, x);
                proof {
                    assert(v0 =~= v@.push(y));
                    lemma_insert_counts(r0, i as int, y);
                    vstd::seq_lib::to_multiset_build(v@, y);
                    assert(r@.to_multiset().add(v@.to_multiset()) =~= r0.to_multiset().add(v0.to_multiset()));
                    assert forall|a: int, b: int| 0 <= a < b < r@.len() implies (#[trigger] r@[a]).0 <= (
                    #[trigger] r@[b]).0 by {
                        let oa = if a < i {
                            a
                        } else {
                            a - 1
                        };
                        let ob = if b < i {
                            b
                        } else {
                            b - 1
                        };
                        if a != i && b != i {
                            assert(r0[oa].0 <= r0[ob].0);
                        } else if a == i {
                            assert(r0[ob].0 > y.0);
                        } else {
                            if a < i - 1 {
                                assert(r0[a].0 <= r0[i - 1].0);
                            }
                        }
                    }
                }
            },
            None => {},
        }
    }
    proof {
        broadcast use vstd::seq_lib::group_to_multiset_ensures;

        assert(v@.to_multiset() =~= vstd::multiset::Multiset::empty());
        assert(r@.to_multiset() =~= all.to_multiset());
    }
    r
}

/// An insertion adds one element to the counts.
proof fn lemma_insert_counts<T>(s: Seq<T>, i: int, x: T)
    requires
        0 <= i <= s.len(),
    ensures
        s.insert(i, x).to_multiset() == s.to_multiset().insert(x),
{
    let t = s.insert(i, x);
    vstd::seq_lib::to_multiset_remove(t, i);
    assert(t.remove(i) =~= s);
    assert(t[i] == x);
    assert(t.contains(x));
    broadcast use vstd::seq_lib::group_to_multiset_ensures;

    assert(t.to_multiset().count(x) > 0);
    assert(t.to_multiset() =~= s.to_multiset().insert(x));
}

} // verus!
