//! The lexicographic order of byte strings.

use vstd::prelude::*;

verus! {

/// The three outcomes of a comparison.
#[derive(Clone, Copy, Debug, PartialEq, Eq, Structural)]
pub enum Order {
    Less,
    Equal,
    Greater,
}

/// `a` comes strictly before `b` in lexicographic order.
pub open spec fn lt(a: Seq<u8>, b: Seq<u8>) -> bool
    decreases a.len(),
{
    if b.len() == 0 {
        false
    } else if a.len() == 0 {
        true
    } else if a[0] != b[0] {
        a[0] < b[0]
    } else {
        lt(a.skip(1), b.skip(1))
    }
}

/// `a` comes before `b` or equals it.
pub open spec fn le(a: Seq<u8>, b: Seq<u8>) -> bool {
    a == b || lt(a, b)
}

pub proof fn lt_irrefl(a: Seq<u8>)
    ensures
        !lt(a, a),
    decreases a.len(),
{
    if a.len() > 0 {
        lt_irrefl(a.skip(1));
    }
}

pub proof fn lt_trans(a: Seq<u8>, b: Seq<u8>, c: Seq<u8>)
    requires
        lt(a, b),
        lt(b, c),
    ensures
        lt(a, c),
    decreases a.len(),
{
    if a.len() > 0 && a[0] == b[0] && b[0] == c[0] {
        lt_trans(a.skip(1), b.skip(1), c.skip(1));
    }
}

pub proof fn lt_total(a: Seq<u8>, b: Seq<u8>)
    ensures
        lt(a, b) || a == b || lt(b, a),
    decreases a.len(),
{
    if a.len() == 0 {
        if b.len() == 0 {
            assert(a =~= b);
        }
    } else if b.len() > 0 && a[0] == b[0] {
        lt_total(a.skip(1), b.skip(1));
        if a.skip(1) == b.skip(1) {
            assert(a =~= b) by {
                assert(a =~= seq![a[0]] + a.skip(1));
                assert(b =~= seq![b[0]] + b.skip(1));
            }
        }
    }
}

/// The order is a strict total order, stated with triggers for use by the solver.
pub proof fn order_laws()
    ensures
        forall|a: Seq<u8>| !#[trigger] lt(a, a),
        forall|a: Seq<u8>, b: Seq<u8>, c: Seq<u8>| #[trigger] lt(a, b) && #[trigger] lt(b, c) ==> lt(a, c),
        forall|a: Seq<u8>, b: Seq<u8>| #[trigger] lt(a, b) || a == b || lt(b, a),
{
    assert forall|a: Seq<u8>| !#[trigger] lt(a, a) by {
        lt_irrefl(a);
    }
    assert forall|a: Seq<u8>, b: Seq<u8>, c: Seq<u8>| #[trigger] lt(a, b) && #[trigger] lt(b, c) implies lt(
        a,
        c,
    ) by {
        lt_trans(a, b, c);
    }
    assert forall|a: Seq<u8>, b: Seq<u8>| #[trigger] lt(a, b) || a == b || lt(b, a) by {
        lt_total(a, b);
    }
}

/// Sequences that agree before `i` compare as their rests from `i` on do.
pub proof fn lt_from(a: Seq<u8>, b: Seq<u8>, i: int)
    requires
        0 <= i <= a.len(),
        i <= b.len(),
        forall|j: int| 0 <= j < i ==> a[j] == b[j],
    ensures
        lt(a, b) == lt(a.skip(i), b.skip(i)),
    decreases i,
{
    if i == 0 {
        assert(a.skip(0) =~= a);
        assert(b.skip(0) =~= b);
    } else {
        lt_from(a.skip(1), b.skip(1), i - 1);
        assert(a.skip(1).skip(i - 1) =~= a.skip(i));
        assert(b.skip(1).skip(i - 1) =~= b.skip(i));
    }
}

/// Compares two byte strings.
pub fn compare_bytes(a: &[u8], b: &[u8]) -> (r: Order)
    ensures
        match r {
            Order::Less => lt(a@, b@),
            Order::Equal => a@ == b@,
            Order::Greater => lt(b@, a@),
        },
{
    let n: usize = if a.len() < b.len() { a.len() } else { b.len() };
    let mut i: usize = 0;
    while i < n && a[i] == b[i]
        invariant
            i <= n,
            n <= a@.len(),
            n <= b@.len(),
            forall|j: int| 0 <= j < i ==> a@[j] == b@[j],
        decreases n - i,
    {
        i = i + 1;
    }
    proof {
        lt_from(a@, b@, i as int);
        lt_from(b@, a@, i as int);
    }
    if i < n {
        if a[i] < b[i] {
            Order::Less
        } else {
            Order::Greater
        }
    } else if a.len() < b.len() {
        Order::Less
    } else if a.len() > b.len() {
        Order::Greater
    } else {
        assert(a@ =~= b@);
        Order::Equal
    }
}

/// Whether two byte strings are equal.
pub fn same_bytes(a: &[u8], b: &[u8]) -> (r: bool)
    ensures
        r == (a@ == b@),
{
    proof {
        lt_irrefl(a@);
    }
    match compare_bytes(a, b) {
        Order::Equal => true,
        _ => false,
    }
}

/// The first position from `from` on where `right` has the greater byte, or the length of
/// the shorter of the two.
pub open spec fn first_rise(left: Seq<u8>, right: Seq<u8>, from: int) -> int
    decreases left.len() - from,
{
    if from >= left.len() || from >= right.len() || right[from] > left[from] {
        from
    } else {
        first_rise(left, right, from + 1)
    }
}

/// The separator between two adjacent keys: `right` cut after its first byte that exceeds
/// that of `left`, or else `left` followed by a zero byte.
pub open spec fn separator(left: Seq<u8>, right: Seq<u8>) -> Seq<u8> {
    let i = first_rise(left, right, 0);
    if i < left.len() && i < right.len() {
        right.take(i + 1)
    } else {
        left.push(0)
    }
}

proof fn lemma_first_rise_skip(left: Seq<u8>, right: Seq<u8>, i: int)
    requires
        0 <= i <= left.len(),
        i <= right.len(),
        forall|j: int| 0 <= j < i ==> left[j] == right[j],
    ensures
        first_rise(left, right, 0) == first_rise(left, right, i),
    decreases i,
{
    if i > 0 {
        lemma_first_rise_skip(left, right, i - 1);
    }
}

/// The position of the first difference of two ordered byte strings.
pub proof fn lt_split(a: Seq<u8>, b: Seq<u8>) -> (d: int)
    requires
        lt(a, b),
    ensures
        0 <= d <= a.len(),
        d < b.len(),
        forall|j: int| 0 <= j < d ==> a[j] == b[j],
        d < a.len() ==> a[d] < b[d],
    decreases a.len(),
{
    if a.len() == 0 || a[0] != b[0] {
        0
    } else {
        let d = lt_split(a.skip(1), b.skip(1)) + 1;
        assert forall|j: int| 0 <= j < d implies a[j] == b[j] by {
            if j > 0 {
                assert(a.skip(1)[j - 1] == b.skip(1)[j - 1]);
            }
        }
        d
    }
}

/// Two byte strings whose first difference is a rise, or of which the first is a proper
/// prefix of the second, are ordered.
pub proof fn lt_at(a: Seq<u8>, b: Seq<u8>, d: int)
    requires
        0 <= d <= a.len(),
        d < b.len(),
        forall|j: int| 0 <= j < d ==> a[j] == b[j],
        d < a.len() ==> a[d] < b[d],
    ensures
        lt(a, b),
{
    lt_from(a, b, d);
}

/// A separator of two ordered keys comes after the first and not after the second.
pub proof fn separator_between(left: Seq<u8>, right: Seq<u8>)
    requires
        lt(left, right),
    ensures
        lt(left, separator(left, right)),
        le(separator(left, right), right),
        separator(left, right).len() <= right.len(),
{
    let d = lt_split(left, right);
    let s = separator(left, right);
    lemma_first_rise_skip(left, right, d);
    if d < left.len() {
        assert(s == right.take(d + 1));
        lt_at(left, s, d);
        if d + 1 < right.len() {
            lt_at(s, right, d + 1);
        } else {
            assert(s =~= right);
        }
    } else {
        assert(s == left.push(0));
        lt_at(left, s, d);
        if right[d] > 0 {
            lt_at(s, right, d);
        } else if d + 1 < right.len() {
            lt_at(s, right, d + 1);
        } else {
            assert(s =~= right);
        }
    }
}

/// No byte string that separates two ordered keys is shorter than their separator.
pub proof fn separator_is_shortest(left: Seq<u8>, right: Seq<u8>, s: Seq<u8>)
    requires
        lt(left, s),
        le(s, right),
    ensures
        separator(left, right).len() <= s.len(),
{
    if s != right {
        lt_trans(left, s, right);
    }
    let d = lt_split(left, right);
    lemma_first_rise_skip(left, right, d);
    if s.len() <= d {
        let e = lt_split(left, s);
        let f = lt_split(s, right);
        assert(left[e] < s[e]);
        assert(right[e] == left[e]);
        if f < e {
            assert(left[f] == s[f]);
            assert(right[f] == left[f]);
        }
    }
}

proof fn lemma_separator(left: Seq<u8>, right: Seq<u8>)
    ensures
        lt(left, right) ==> lt(left, separator(left, right)) && le(separator(left, right), right),
        forall|s: Seq<u8>| lt(left, s) && #[trigger] le(s, right) ==> separator(left, right).len() <= s.len(),
{
    if lt(left, right) {
        separator_between(left, right);
    }
    assert forall|s: Seq<u8>| lt(left, s) && #[trigger] le(s, right) implies separator(left, right).len() <= s.len() by {
        separator_is_shortest(left, right, s);
    }
}

/// The separator pushed up between `left_last` and `right_first`.
pub fn truncated_separator(left_last: &[u8], right_first: &[u8]) -> (r: Vec<u8>)
    ensures
        r@ == separator(left_last@, right_first@),
        lt(left_last@, right_first@) ==> lt(left_last@, r@) && le(r@, right_first@),
        forall|s: Seq<u8>| lt(left_last@, s) && #[trigger] le(s, right_first@) ==> r@.len() <= s.len(),
{
    let n: usize = if left_last.len() < right_first.len() { left_last.len() } else { right_first.len() };
    let mut i: usize = 0;
    while i < n
        invariant
            i <= n,
            n == left_last@.len() || n == right_first@.len(),
            n <= left_last@.len(),
            n <= right_first@.len(),
            first_rise(left_last@, right_first@, 0) == first_rise(left_last@, right_first@, i as int),
        decreases n - i,
    {
        if right_first[i] > left_last[i] {
            let mut s: Vec<u8> = Vec::with_capacity(i + 1);
            s.extend_from_slice(vstd::slice::slice_subrange(right_first, 0, i + 1));
            proof {
                assert(s@ =~= separator(left_last@, right_first@));
                lemma_separator(left_last@, right_first@);
            }
            return s;
        }
        i = i + 1;
    }
    let mut s: Vec<u8> = Vec::with_capacity(left_last.len());
    s.extend_from_slice(left_last);
    s.push(0);
    proof {
        assert(s@ =~= separator(left_last@, right_first@));
        lemma_separator(left_last@, right_first@);
    }
    s
}

} // verus!
