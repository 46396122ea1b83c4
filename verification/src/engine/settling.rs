//! What sets off the compaction of a tree.

use crate::engine::btree;
use crate::engine::btree::BPlusTree;
use crate::engine::btree_model;
use crate::engine::maps;
use crate::engine::page;
use vstd::prelude::*;

verus! {

/// A tree on which a write is through is laid out anew only where its free pages, and the leaves that
/// its cells do not need, reach the configured share of its pages. Where there is room for that, it
/// is laid out anew then: afterwards no page is free, and no leaf has room for the first cell of the
/// next.
pub proof fn compaction_follows_the_share(mid: BPlusTree, to: BPlusTree)
    requires
        mid.wf(),
        to.wf(),
        to.config_view() == mid.config_view(),
        to@ == mid@,
        mid.settles(&to),
    ensures
        to == mid || {
            let t = mid.config_view().compaction_ratio;
            t.num < t.den && (mid.tree().free.len() * t.den >= t.num * (mid.page_count() - 1) || exists|k: int|
                #[trigger] BPlusTree::fit_on(mid.leaf_cells(), k) && (mid.tree().free.len() + mid.leaf_cells().len() - k)
                    * t.den >= t.num * (mid.page_count() - 1))
        },
        to.config_view().compaction_ratio.num < to.config_view().compaction_ratio.den && to.rebuildable() ==> {
            ||| {
                &&& to.tree().free.len() == 0
                &&& forall|i: int|
                    0 < i < to.leaf_cells().len() ==> (#[trigger] to.leaf_cells()[i]).len() > 0 && page::used(
                        to.leaf_cells()[i - 1],
                    ) + to.leaf_cells()[i][0].len() + 2 > 4072
            }
            ||| {
                &&& to.tree().free.len() * to.config_view().compaction_ratio.den < to.config_view().compaction_ratio.num * (
                to.page_count() - 1)
                &&& forall|k: int| #[trigger]
                    BPlusTree::fit_on(to.leaf_cells(), k) ==> (to.tree().free.len() + to.leaf_cells().len() - k)
                        * to.config_view().compaction_ratio.den < to.config_view().compaction_ratio.num * (
                    to.page_count() - 1)
            }
        },
{
    let t = mid.config_view().compaction_ratio;
    let stats = mid.stats_view();
    let free = mid.tree().free.len() as int;
    let leaves = mid.leaf_cells().len() as int;
    let packed = if stats.leaf_entry_bytes == 0 {
        1int
    } else {
        (stats.leaf_entry_bytes + 4072 - 1) / 4072
    };
    let part = BPlusTree::reclaimable(stats);
    let bound = t.num * (mid.page_count() - 1);
    mid.spare_pages_are_counted();
    to.spare_pages_are_counted();
    assert(page::page_room(true) == 4072);
    assert(BPlusTree::fit_on(mid.leaf_cells(), packed));
    assert(part == free + (if leaves > packed {
        leaves - packed
    } else {
        0
    }));
    vstd::arithmetic::mul::lemma_mul_inequality(free, part, t.den as int);
    assert forall|k: int| #[trigger] BPlusTree::fit_on(mid.leaf_cells(), k) implies (free + leaves - k) * t.den <= part
        * t.den by {
        assert(packed <= k);
        vstd::arithmetic::mul::lemma_mul_inequality(free + leaves - k, part, t.den as int);
    }
    let due = BPlusTree::compaction_due(mid.config_view(), stats);
    assert(due == (t.num < t.den && part * t.den >= bound));
    if due {
        if leaves <= packed {
            assert(free * t.den >= bound);
        } else {
            assert((free + leaves - packed) * t.den >= bound);
        }
        if to.rebuildable() {
            let items = choose|items: Seq<(Vec<u8>, Vec<u8>)>|
                maps::ascending(items) && maps::map_of(items) == to@ && #[trigger] btree::build_room(items);
            assert(btree::build_room(items));
            assert(mid.rebuildable());
            assert(mid.repacked(&to));
            let bs = to.leaf_cells();
            assert(to.tree().free.len() == 0);
            assert forall|i: int| 0 < i < bs.len() implies (#[trigger] bs[i]).len() > 0 && page::used(bs[i - 1])
                + bs[i][0].len() + 2 > 4072 by {
                assert(btree_model::no_room(bs[i - 1], bs[i]));
            }
        }
    } else {
        assert(to == mid);
        if t.num < t.den {
            assert(free * t.den < bound);
            assert forall|k: int| #[trigger] BPlusTree::fit_on(to.leaf_cells(), k) implies (to.tree().free.len()
                + to.leaf_cells().len() - k) * t.den < bound by {
                assert(BPlusTree::fit_on(mid.leaf_cells(), k));
            }
            assert(to.tree().free.len() * to.config_view().compaction_ratio.den < to.config_view().compaction_ratio.num
                * (to.page_count() - 1));
            assert(forall|k: int| #[trigger]
                    BPlusTree::fit_on(to.leaf_cells(), k) ==> (to.tree().free.len() + to.leaf_cells().len() - k)
                        * to.config_view().compaction_ratio.den < to.config_view().compaction_ratio.num * (
                    to.page_count() - 1));
        }
    }
}

} // verus!
