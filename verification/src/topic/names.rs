//! The names of segment files: the offset of the first record in twenty digits, and `.log`.

use crate::utils::le;
use crate::utils::vecs;
use vstd::prelude::*;

verus! {

/// The ending of a segment's name, with the dot: `.log`.
pub open spec fn ending() -> Seq<u8> {
    seq![46u8, 108, 111, 103]
}

/// The last `k` digits of a number.
pub open spec fn padded(n: nat, k: nat) -> Seq<u8>
    decreases k,
{
    if k == 0 {
        Seq::empty()
    } else {
        padded(n / 10, (k - 1) as nat).push((48 + n % 10) as u8)
    }
}

/// Ten to the power of `k`.
pub open spec fn pow10(k: nat) -> nat
    decreases k,
{
    if k == 0 {
        1
    } else {
        10 * pow10((k - 1) as nat)
    }
}

/// The number that digits stand for.
pub open spec fn value(s: Seq<u8>) -> nat
    decreases s.len(),
{
    if s.len() == 0 {
        0
    } else {
        (10 * value(s.drop_last()) + (s.last() - 48)) as nat
    }
}

pub open spec fn all_digits(s: Seq<u8>) -> bool {
    forall|i: int| 0 <= i < s.len() ==> 48 <= #[trigger] s[i] <= 57
}

/// The digits of a number: a plus sign may stand before them.
pub open spec fn unsigned(s: Seq<u8>) -> Seq<u8> {
    if s.len() > 0 && s[0] == 43 {
        s.skip(1)
    } else {
        s
    }
}

/// The number that a text stands for, where it is one and fits 64 bits.
pub open spec fn parsed(s: Seq<u8>) -> Option<u64> {
    let d = unsigned(s);
    if d.len() > 0 && all_digits(d) && value(d) <= u64::MAX {
        Some(value(d) as u64)
    } else {
        None
    }
}

/// The offset that a file's name stands for, where it is that of a segment.
pub open spec fn base_of(name: Seq<u8>) -> Option<u64> {
    if name.len() > 4 && name.skip(name.len() - 4) == ending() {
        parsed(name.take(name.len() - 4))
    } else {
        None
    }
}

/// The name of the segment that starts with this offset.
pub open spec fn name_of(base: u64) -> Seq<u8> {
    padded(base as nat, 20) + ending()
}

fn push_padded(out: &mut Vec<u8>, n: u64, k: u64)
    ensures
        final(out)@ == old(out)@ + padded(n as nat, k as nat),
    decreases k,
{
    if k > 0 {
        push_padded(out, n / 10, k - 1);
        out.push(48 + (n % 10) as u8);
    }
    assert(out@ =~= old(out)@ + padded(n as nat, k as nat));
}

/// The name of the segment that starts with this offset.
pub fn segment_name(base: u64) -> (r: Vec<u8>)
    ensures
        r@ == name_of(base),
{
    let mut r: Vec<u8> = Vec::new();
    push_padded(&mut r, base, 20);
    r.push(46);
    r.push(108);
    r.push(111);
    r.push(103);
    assert(r@ =~= name_of(base));
    r
}

proof fn lemma_value_grows(s: Seq<u8>, i: int)
    requires
        all_digits(s),
        0 <= i <= s.len(),
    ensures
        value(s.take(i)) <= value(s),
    decreases s.len() - i,
{
    if i == s.len() {
        assert(s.take(i) =~= s);
    } else {
        lemma_value_grows(s, i + 1);
        assert(s.take(i + 1).drop_last() =~= s.take(i));
        assert(48 <= s[i]);
    }
}

/// The number that a text stands for.
pub fn parse_number(s: &[u8]) -> (r: Option<u64>)
    ensures
        r == parsed(s@),
{
    let start: usize = if s.len() > 0 && s[0] == 43 {
        1
    } else {
        0
    };
    let ghost d = unsigned(s@);
    if s.len() == start {
        return None;
    }
    let mut i: usize = start;
    let mut n: u64 = 0;
    proof {
        assert(d.take(0) =~= Seq::empty());
        assert(d =~= s@.skip(start as int));
    }
    while i < s.len()
        invariant
            start <= i <= s@.len(),
            start <= 1,
            d == unsigned(s@),
            d == s@.skip(start as int),
            n == value(d.take(i - start)),
            forall|j: int| 0 <= j < i - start ==> 48 <= #[trigger] d[j] <= 57,
        decreases s.len() - i,
    {
        let c: u8 = s[i];
        assert(d[i - start] == c);
        if c < 48 || c > 57 {
            return None;
        }
        proof {
            assert(d.take(i - start + 1).drop_last() =~= d.take(i - start));
            if all_digits(d) {
                lemma_value_grows(d, i - start + 1);
            }
        }
        let digit: u64 = (c - 48) as u64;
        if n > (u64::MAX - digit) / 10 {
            return None;
        }
        n = n * 10 + digit;
        i = i + 1;
    }
    assert(d.take(i - start) =~= d);
    Some(n)
}

/// The offset that a file's name stands for, where it is that of a segment.
pub fn segment_base(name: &[u8]) -> (r: Option<u64>)
    ensures
        r == base_of(name@),
{
    let n: usize = name.len();
    if n <= 4 {
        return None;
    }
    assert(name@.skip(n - 4).len() == 4);
    if name[n - 4] != 46 || name[n - 3] != 108 || name[n - 2] != 111 || name[n - 1] != 103 {
        proof {
            let e = name@.skip(n - 4);
            assert(e[0] == name@[n - 4] && e[1] == name@[n - 3] && e[2] == name@[n - 2] && e[3] == name@[n - 1]);
            let f = ending();
            assert(f[0] == 46 && f[1] == 108 && f[2] == 111 && f[3] == 103);
        }
        return None;
    }
    assert(name@.skip(n - 4) =~= ending());
    let stem: Vec<u8> = le::copy_range(name, 0, n - 4);
    assert(stem@ =~= name@.take(n - 4));
    parse_number(&stem)
}

proof fn lemma_padded(n: nat, k: nat)
    requires
        n < pow10(k),
    ensures
        padded(n, k).len() == k,
        all_digits(padded(n, k)),
        value(padded(n, k)) == n,
    decreases k,
{
    if k > 0 {
        assert(n / 10 < pow10((k - 1) as nat));
        lemma_padded(n / 10, (k - 1) as nat);
        let s = padded(n, k);
        let p = padded(n / 10, (k - 1) as nat);
        assert(s.drop_last() =~= p);
        assert forall|i: int| 0 <= i < s.len() implies 48 <= #[trigger] s[i] <= 57 by {
            if i < p.len() {
                assert(s[i] == p[i]);
            }
        }
    }
}

/// A segment is found again under the name that it was given.
pub proof fn name_round_trip(base: u64)
    ensures
        base_of(name_of(base)) == Some(base),
        name_of(base).len() == 24,
{
    assert(pow10(20) > u64::MAX) by {
        reveal_with_fuel(pow10, 21);
    }
    let s = padded(base as nat, 20);
    lemma_padded(base as nat, 20);
    let n = name_of(base);
    assert(n.skip(n.len() - 4) =~= ending());
    assert(n.take(n.len() - 4) =~= s);
    assert(48 <= s[0] <= 57);
    assert(unsigned(s) == s);
}

/// The segments among files, each with the offset that it starts with.
pub open spec fn listed(names: Seq<Vec<u8>>) -> Seq<(u64, Vec<u8>)>
    decreases names.len(),
{
    if names.len() == 0 {
        Seq::empty()
    } else {
        match base_of(names.last()@) {
            Some(b) => listed(names.drop_last()).push((b, names.last())),
            None => listed(names.drop_last()),
        }
    }
}

/// The segments among the files of a directory, in the order of their offsets. Other files are
/// left out.
pub fn list_segments(names: Vec<Vec<u8>>) -> (r: Vec<(u64, Vec<u8>)>)
    ensures
        vecs::by_number(r@),
        r@.to_multiset() == listed(names@).to_multiset(),
{
    let ghost all = names@;
    let mut names = names;
    let mut found: Vec<(u64, Vec<u8>)> = Vec::new();
    proof {
        broadcast use vstd::seq_lib::group_to_multiset_ensures;
        assert(found@.to_multiset().add(listed(names@).to_multiset()) =~= listed(all).to_multiset());
    }
    while names.len() > 0
        invariant
            found@.to_multiset().add(listed(names@).to_multiset()) == listed(all).to_multiset(),
        decreases names@.len(),
    {
        let ghost was = names@;
        let ghost before = found@;
        match names.pop() {
            Some(name) => {
                match segment_base(&name) {
                    Some(b) => {
                        found.push((b, name));
                        proof {
                            broadcast use vstd::seq_lib::group_to_multiset_ensures;
                            assert(found@.to_multiset() =~= before.to_multiset().insert((b, was.last())));
                            assert(listed(was).to_multiset() =~= listed(names@).to_multiset().insert((b, was.last())));
                            assert(found@.to_multiset().add(listed(names@).to_multiset()) =~= before.to_multiset().add(
                                listed(was).to_multiset(),
                            ));
                        }
                    },
                    None => {},
                }
            },
            None => {},
        }
    }
    proof {
        broadcast use vstd::seq_lib::group_to_multiset_ensures;
        assert(found@.to_multiset() =~= listed(all).to_multiset());
    }
    vecs::sort_by_number(found)
}

} // verus!
