//! The links of a skip list.
//!
//! `order` lists the rows of the link table in key order; row 0 is the head, which comes
//! first. `lvs` has the number of levels of each of them. A link is the row it leads to, or 0
//! where it leads nowhere.

use vstd::prelude::*;

verus! {

/// Levels of the list.
pub const MAX_LEVEL: usize = 16;

/// The first position behind `p` that is more than `l` levels high, or the end.
pub open spec fn nxt(lvs: Seq<int>, l: int, p: int) -> int
    decreases lvs.len() - p,
{
    if p + 1 >= lvs.len() {
        lvs.len() as int
    } else if lvs[p + 1] > l {
        p + 1
    } else {
        nxt(lvs, l, p + 1)
    }
}

/// The last position before `c` that is more than `l` levels high, or -1.
pub open spec fn prv(lvs: Seq<int>, l: int, c: int) -> int
    decreases c,
{
    if c <= 0 {
        -1
    } else if lvs[c - 1] > l {
        c - 1
    } else {
        prv(lvs, l, c - 1)
    }
}

/// The link of a row on a level.
pub open spec fn link(nexts: Seq<usize>, row: int, l: int) -> int {
    nexts[row * MAX_LEVEL + l] as int
}

/// The row at a position, or 0 behind the last one.
pub open spec fn row_at(order: Seq<int>, q: int) -> int {
    if q < order.len() {
        order[q]
    } else {
        0
    }
}

/// The link of position `p` on level `l` leads to the next position that is high enough.
pub open spec fn link_ok(order: Seq<int>, lvs: Seq<int>, nexts: Seq<usize>, p: int, l: int) -> bool {
    link(nexts, order[p], l) == row_at(order, nxt(lvs, l, p))
}

/// The rows that take part, each once, head first.
pub open spec fn rows_ok(order: Seq<int>, lvs: Seq<int>, n: int) -> bool {
    &&& order.len() >= 1
    &&& lvs.len() == order.len()
    &&& order[0] == 0
    &&& lvs[0] == MAX_LEVEL
    &&& forall|p: int| 1 <= p < order.len() ==> 1 <= #[trigger] order[p] <= n
    &&& forall|p: int| 0 <= p < order.len() ==> 1 <= #[trigger] lvs[p] <= MAX_LEVEL
    &&& forall|p: int, q: int| 0 <= p < q < order.len() ==> #[trigger] order[p] != #[trigger] order[q]
}

/// All links are as they should be.
pub open spec fn links_ok(order: Seq<int>, lvs: Seq<int>, nexts: Seq<usize>) -> bool {
    forall|p: int, l: int|
        0 <= p < order.len() && 0 <= l < lvs[p] ==> #[trigger] link_ok(order, lvs, nexts, p, l)
}

/// `update` has, for each level, the row of the last position before `c` that is high enough.
pub open spec fn update_ok(order: Seq<int>, lvs: Seq<int>, update: Seq<usize>, c: int) -> bool {
    &&& update.len() == MAX_LEVEL
    &&& forall|l: int| 0 <= l < MAX_LEVEL ==> #[trigger] update[l] == order[prv(lvs, l, c)]
}

pub proof fn lemma_nxt(lvs: Seq<int>, l: int, p: int)
    requires
        -1 <= p < lvs.len(),
    ensures
        p < nxt(lvs, l, p) <= lvs.len(),
        nxt(lvs, l, p) < lvs.len() ==> lvs[nxt(lvs, l, p)] > l,
        forall|r: int| p < r < nxt(lvs, l, p) ==> #[trigger] lvs[r] <= l,
    decreases lvs.len() - p,
{
    if p + 1 < lvs.len() && lvs[p + 1] <= l {
        lemma_nxt(lvs, l, p + 1);
    }
}

pub proof fn lemma_nxt_is(lvs: Seq<int>, l: int, p: int, q: int)
    requires
        -1 <= p < q <= lvs.len(),
        q < lvs.len() ==> lvs[q] > l,
        forall|r: int| p < r < q ==> #[trigger] lvs[r] <= l,
    ensures
        nxt(lvs, l, p) == q,
{
    lemma_nxt(lvs, l, p);
    let n = nxt(lvs, l, p);
    if n < q {
        assert(lvs[n] <= l);
    } else if q < n {
        assert(lvs[q] <= l);
    }
}

pub proof fn lemma_prv(lvs: Seq<int>, l: int, c: int)
    requires
        1 <= c <= lvs.len(),
        l < MAX_LEVEL,
        lvs[0] == MAX_LEVEL,
    ensures
        0 <= prv(lvs, l, c) < c,
        lvs[prv(lvs, l, c)] > l,
        forall|r: int| prv(lvs, l, c) < r < c ==> #[trigger] lvs[r] <= l,
    decreases c,
{
    if lvs[c - 1] <= l {
        lemma_prv(lvs, l, c - 1);
    }
}

pub proof fn lemma_prv_is(lvs: Seq<int>, l: int, c: int, p: int)
    requires
        0 <= p < c <= lvs.len(),
        l < MAX_LEVEL,
        lvs[0] == MAX_LEVEL,
        lvs[p] > l,
        forall|r: int| p < r < c ==> #[trigger] lvs[r] <= l,
    ensures
        prv(lvs, l, c) == p,
{
    lemma_prv(lvs, l, c);
    let n = prv(lvs, l, c);
    if n < p {
        assert(lvs[p] <= l);
    } else if p < n {
        assert(lvs[n] <= l);
    }
}

/// What linking in row `j` with `lv` levels does to the table: on its levels the row takes over
/// the links of the rows before it, which then lead to it.
pub open spec fn linked_in(
    order: Seq<int>,
    lvs: Seq<int>,
    before: Seq<usize>,
    after: Seq<usize>,
    c: int,
    j: int,
    lv: int,
) -> bool {
    &&& forall|l: int|
        0 <= l < lv ==> #[trigger] link(after, j, l) == link(before, order[prv(lvs, l, c)], l)
    &&& forall|row: int, l: int|
        0 <= l < MAX_LEVEL && row != j && row >= 0 && (row + 1) * MAX_LEVEL <= before.len() ==> #[trigger] link(after, row, l) == (
        if l < lv && row == order[prv(lvs, l, c)] {
            j
        } else {
            link(before, row, l)
        })
}

pub proof fn lemma_insert(
    order: Seq<int>,
    lvs: Seq<int>,
    before: Seq<usize>,
    after: Seq<usize>,
    n: int,
    c: int,
    j: int,
    lv: int,
)
    requires
        rows_ok(order, lvs, n),
        links_ok(order, lvs, before),
        n >= 0,
        before.len() >= (n + 1) * MAX_LEVEL,
        1 <= c <= order.len(),
        1 <= lv <= MAX_LEVEL,
        1 <= j,
        forall|p: int| 0 <= p < order.len() ==> #[trigger] order[p] != j,
        linked_in(order, lvs, before, after, c, j, lv),
    ensures
        rows_ok(order.insert(c, j), lvs.insert(c, lv), if j > n {
            j
        } else {
            n
        }),
        links_ok(order.insert(c, j), lvs.insert(c, lv), after),
{
    let o2 = order.insert(c, j);
    let v2 = lvs.insert(c, lv);
    let len = order.len() as int;
    assert forall|p: int, l: int| 0 <= p < o2.len() && 0 <= l < v2[p] implies #[trigger] link_ok(o2, v2, after, p, l) by {
        if p == c {
            let b = prv(lvs, l, c);
            lemma_prv(lvs, l, c);
            assert(link_ok(order, lvs, before, b, l));
            let q = nxt(lvs, l, b);
            lemma_nxt(lvs, l, b);
            assert(q >= c) by {
                if q < c {
                    assert(lvs[q] <= l);
                }
            }
            assert forall|r: int| c < r < q + 1 implies #[trigger] v2[r] <= l by {
                assert(v2[r] == lvs[r - 1]);
            }
            if q < len {
                assert(v2[q + 1] == lvs[q]);
            }
            lemma_nxt_is(v2, l, c, q + 1);
            assert(link(after, j, l) == link(before, order[b], l));
        } else {
            let op = if p < c {
                p
            } else {
                p - 1
            };
            assert(order[op] == o2[p] && lvs[op] == v2[p]);
            assert(link_ok(order, lvs, before, op, l));
            let row = order[op];
            let q = nxt(lvs, l, op);
            lemma_nxt(lvs, l, op);
            lemma_prv(lvs, l, c);
            let b = prv(lvs, l, c);
            assert(0 <= row <= n);
            assert((row + 1) * MAX_LEVEL <= before.len()) by (nonlinear_arith)
                requires
                    0 <= row <= n,
                    before.len() >= (n + 1) * MAX_LEVEL,
            ;
            if l < lv && op == b {
                assert forall|r: int| p < r < c implies #[trigger] v2[r] <= l by {
                    assert(v2[r] == lvs[r]);
                }
                lemma_nxt_is(v2, l, p, c);
            } else {
                if l < lv {
                    assert(row != order[b]);
                }
                assert(link(after, row, l) == link(before, row, l));
                if op >= c {
                    assert forall|r: int| p < r < q + 1 implies #[trigger] v2[r] <= l by {
                        assert(v2[r] == lvs[r - 1]);
                    }
                    if q < len {
                        assert(v2[q + 1] == lvs[q]);
                    }
                    lemma_nxt_is(v2, l, p, q + 1);
                } else if q < c {
                    assert forall|r: int| p < r < q implies #[trigger] v2[r] <= l by {
                        assert(v2[r] == lvs[r]);
                    }
                    assert(v2[q] == lvs[q]);
                    lemma_nxt_is(v2, l, p, q);
                } else {
                    assert(b == op) by {
                        assert forall|r: int| op < r < c implies #[trigger] lvs[r] <= l by {}
                        lemma_prv_is(lvs, l, c, op);
                    }
                    assert(lv <= l);
                    assert forall|r: int| p < r < q + 1 implies #[trigger] v2[r] <= l by {
                        if r < c {
                            assert(v2[r] == lvs[r]);
                        } else if r > c {
                            assert(v2[r] == lvs[r - 1]);
                        }
                    }
                    if q < len {
                        assert(v2[q + 1] == lvs[q]);
                    }
                    lemma_nxt_is(v2, l, p, q + 1);
                }
            }
        }
    }
    assert forall|p: int, q: int| 0 <= p < q < o2.len() implies #[trigger] o2[p] != #[trigger] o2[q] by {
        let op = if p < c {
            p
        } else {
            p - 1
        };
        let oq = if q < c {
            q
        } else {
            q - 1
        };
        if p != c && q != c {
            assert(order[op] != order[oq]);
        } else if p != c {
            assert(order[op] != j);
        } else {
            assert(order[oq] != j);
        }
    }
    assert forall|p: int| 1 <= p < o2.len() implies 1 <= #[trigger] o2[p] && o2[p] <= (if j > n {
        j
    } else {
        n
    }) by {
        if p < c {
            assert(o2[p] == order[p]);
        } else if p > c {
            assert(o2[p] == order[p - 1]);
        }
    }
    assert forall|p: int| 0 <= p < v2.len() implies 1 <= #[trigger] v2[p] <= MAX_LEVEL by {
        if p < c {
            assert(v2[p] == lvs[p]);
        } else if p > c {
            assert(v2[p] == lvs[p - 1]);
        }
    }
}

/// What unlinking position `c` on its first `lv` levels does to the table: the rows that led to
/// it take over its links.
/// Its own row may then hold anything.
pub open spec fn linked_out(
    order: Seq<int>,
    lvs: Seq<int>,
    before: Seq<usize>,
    after: Seq<usize>,
    c: int,
    lv: int,
) -> bool {
    forall|row: int, l: int|
        0 <= l < MAX_LEVEL && row != order[c] && row >= 0 && (row + 1) * MAX_LEVEL <= before.len() ==> #[trigger] link(
            after,
            row,
            l,
        ) == (if l < lv && row == order[prv(lvs, l, c)] {
            link(before, order[c], l)
        } else {
            link(before, row, l)
        })
}

pub proof fn lemma_remove(
    order: Seq<int>,
    lvs: Seq<int>,
    before: Seq<usize>,
    after: Seq<usize>,
    n: int,
    c: int,
)
    requires
        rows_ok(order, lvs, n),
        links_ok(order, lvs, before),
        n >= 0,
        before.len() >= (n + 1) * MAX_LEVEL,
        1 <= c < order.len(),
        linked_out(order, lvs, before, after, c, lvs[c]),
    ensures
        rows_ok(order.remove(c), lvs.remove(c), n),
        links_ok(order.remove(c), lvs.remove(c), after),
{
    let o2 = order.remove(c);
    let v2 = lvs.remove(c);
    let len = order.len() as int;
    assert forall|p: int, l: int| 0 <= p < o2.len() && 0 <= l < v2[p] implies #[trigger] link_ok(o2, v2, after, p, l) by {
        let op = if p < c {
            p
        } else {
            p + 1
        };
        assert(order[op] == o2[p] && lvs[op] == v2[p]);
        assert(link_ok(order, lvs, before, op, l));
        let row = order[op];
        assert(row != order[c]);
        let q = nxt(lvs, l, op);
        lemma_nxt(lvs, l, op);
        lemma_prv(lvs, l, c);
        let b = prv(lvs, l, c);
        assert(0 <= row <= n);
        assert((row + 1) * MAX_LEVEL <= before.len()) by (nonlinear_arith)
            requires
                0 <= row <= n,
                before.len() >= (n + 1) * MAX_LEVEL,
        ;
        if op > c {
            if l < lvs[c] {
                assert(order[op] != order[b]);
            }
            assert forall|r: int| p < r < q - 1 implies #[trigger] v2[r] <= l by {
                assert(v2[r] == lvs[r + 1]);
            }
            if q < len {
                assert(v2[q - 1] == lvs[q]);
            }
            lemma_nxt_is(v2, l, p, q - 1);
        } else if q < c {
            if l < lvs[c] {
                assert(op != b) by {
                    if op == b {
                        assert(lvs[q] <= l);
                    }
                }
            }
            assert forall|r: int| p < r < q implies #[trigger] v2[r] <= l by {
                assert(v2[r] == lvs[r]);
            }
            assert(v2[q] == lvs[q]);
            lemma_nxt_is(v2, l, p, q);
        } else if q == c {
            lemma_prv_is(lvs, l, c, op);
            assert(link_ok(order, lvs, before, c, l));
            let q2 = nxt(lvs, l, c);
            lemma_nxt(lvs, l, c);
            assert forall|r: int| p < r < q2 - 1 implies #[trigger] v2[r] <= l by {
                if r < c {
                    assert(v2[r] == lvs[r]);
                } else {
                    assert(v2[r] == lvs[r + 1]);
                }
            }
            if q2 < len {
                assert(v2[q2 - 1] == lvs[q2]);
            }
            lemma_nxt_is(v2, l, p, q2 - 1);
        } else {
            assert(lvs[c] <= l);
            assert forall|r: int| p < r < q - 1 implies #[trigger] v2[r] <= l by {
                if r < c {
                    assert(v2[r] == lvs[r]);
                } else {
                    assert(v2[r] == lvs[r + 1]);
                }
            }
            if q < len {
                assert(v2[q - 1] == lvs[q]);
            }
            lemma_nxt_is(v2, l, p, q - 1);
        }
    }
    assert forall|p: int, q: int| 0 <= p < q < o2.len() implies #[trigger] o2[p] != #[trigger] o2[q] by {
        let op = if p < c {
            p
        } else {
            p + 1
        };
        let oq = if q < c {
            q
        } else {
            q + 1
        };
        assert(order[op] != order[oq]);
    }
    assert forall|p: int| 1 <= p < o2.len() implies 1 <= #[trigger] o2[p] <= n by {
        if p < c {
            assert(o2[p] == order[p]);
        } else {
            assert(o2[p] == order[p + 1]);
        }
    }
    assert forall|p: int| 0 <= p < v2.len() implies 1 <= #[trigger] v2[p] <= MAX_LEVEL by {
        if p < c {
            assert(v2[p] == lvs[p]);
        } else {
            assert(v2[p] == lvs[p + 1]);
        }
    }
}

/// Behind an insertion the rows before it are the same.
pub proof fn lemma_prv_prefix(a: Seq<int>, b: Seq<int>, l: int, c: int)
    requires
        c <= a.len(),
        c <= b.len(),
        forall|p: int| 0 <= p < c ==> #[trigger] a[p] == b[p],
    ensures
        prv(a, l, c) == prv(b, l, c),
    decreases c,
{
    if c > 0 {
        lemma_prv_prefix(a, b, l, c - 1);
    }
}

} // verus!
