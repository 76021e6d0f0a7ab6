//! The frontier of the banded dynamic program, as a mathematical object.
//!
//! After each step the frontier maps every capacity of the window that can
//! be filled exactly to the best packing known that fills it. What lay
//! outside a window is lost to the steps that follow.

use crate::band::{spec_band_high, spec_band_low};
use crate::item::{heaviest, is_selection, lemma_totals_push, total_profit, total_weight, Item};
use vstd::prelude::*;

verus! {

/// A choice of items with the profit recorded for it.
pub struct Packing {
    pub profit: int,
    pub picks: Seq<usize>,
}

/// The packing that holds nothing.
pub open spec fn empty_packing() -> Packing {
    Packing { profit: 0, picks: Seq::empty() }
}

/// `order` lists each of the indices below `count` once.
pub open spec fn is_permutation(order: Seq<usize>, count: nat) -> bool {
    &&& order.len() == count
    &&& is_selection(count, order)
}

/// The frontier before any item was seen: nothing packed, nothing used.
pub open spec fn initial_frontier() -> Map<int, Packing> {
    Map::empty().insert(0int, empty_packing())
}

/// Whether capacity `j` can be filled by adding `item` to a packing of `prev`.
pub open spec fn can_take(prev: Map<int, Packing>, item: Item, j: int) -> bool {
    j >= item.weight && prev.contains_key(j - item.weight)
}

/// Whether the new frontier fills capacity `j` with `item`: only where that
/// earns more than leaving it out, or where leaving it out fills nothing.
pub open spec fn takes(prev: Map<int, Packing>, item: Item, j: int) -> bool {
    &&& can_take(prev, item, j)
    &&& prev.contains_key(j) ==> prev[j - item.weight].profit + item.profit > prev[j].profit
}

/// The packing of capacity `j` after the item `index` was seen.
pub open spec fn advance_packing(prev: Map<int, Packing>, item: Item, index: usize, j: int) -> Packing {
    if takes(prev, item, j) {
        Packing {
            profit: prev[j - item.weight].profit + item.profit,
            picks: prev[j - item.weight].picks.push(index),
        }
    } else {
        prev[j]
    }
}

/// One step: the frontier over the window from `low` to `high` once the
/// item `index` was seen, built from `prev` alone.
pub open spec fn advance(
    prev: Map<int, Packing>,
    item: Item,
    index: usize,
    low: int,
    high: int,
) -> Map<int, Packing> {
    Map::new(
        |j: int| low <= j <= high && (prev.contains_key(j) || can_take(prev, item, j)),
        |j: int| advance_packing(prev, item, index, j),
    )
}

/// The frontier after the first `step` items of `order`.
pub open spec fn frontier(items: Seq<Item>, order: Seq<usize>, capacity: int, step: nat) -> Map<
    int,
    Packing,
>
    decreases step,
{
    if step == 0 {
        initial_frontier()
    } else {
        let index = order[step - 1];
        advance(
            frontier(items, order, capacity, (step - 1) as nat),
            items[index as int],
            index,
            spec_band_low(step as int, items.len() as int, capacity, heaviest(items)),
            spec_band_high(step as int, items.len() as int, capacity, heaviest(items)),
        )
    }
}

/// The packing at capacity `j` earns at least as much as any other of `f`,
/// and more than any at a smaller capacity.
pub open spec fn leads(f: Map<int, Packing>, j: int) -> bool {
    forall|k: int| #[trigger]
        f.contains_key(k) ==> f[k].profit <= f[j].profit && (k < j ==> f[k].profit < f[j].profit)
}

/// `best` is the answer read off the frontier `f`: the packing that earns
/// most, at the smallest capacity where several earn the same; the empty
/// packing where `f` holds nothing.
pub open spec fn is_best(f: Map<int, Packing>, best: Packing) -> bool {
    if exists|j: int| f.contains_key(j) {
        exists|j: int| #[trigger] f.contains_key(j) && f[j] == best && leads(f, j)
    } else {
        best == empty_packing()
    }
}

/// `best` is what the banded dynamic program returns when it sees the items
/// in the given order.
pub open spec fn is_banded_solution(
    items: Seq<Item>,
    order: Seq<usize>,
    capacity: int,
    best: Packing,
) -> bool {
    is_best(frontier(items, order, capacity, items.len()), best)
}

/// The packing `p` fills capacity `j` exactly with items among the first
/// `step` of `order`, and records what they earn.
pub open spec fn fills(
    items: Seq<Item>,
    order: Seq<usize>,
    capacity: int,
    step: nat,
    j: int,
    p: Packing,
) -> bool {
    &&& 0 <= j <= capacity
    &&& is_selection(items.len(), p.picks)
    &&& forall|k: int, m: int|
        0 <= k < p.picks.len() && step <= m < order.len() ==> p.picks[k] != order[m]
    &&& total_weight(items, p.picks) == j
    &&& total_profit(items, p.picks) == p.profit
}

/// Every packing of every frontier is what it claims to be.
pub proof fn lemma_frontier_fills(
    items: Seq<Item>,
    order: Seq<usize>,
    capacity: int,
    step: nat,
    j: int,
)
    requires
        capacity >= 0,
        is_permutation(order, items.len()),
        step <= items.len(),
        frontier(items, order, capacity, step).contains_key(j),
    ensures
        fills(items, order, capacity, step, j, frontier(items, order, capacity, step)[j]),
    decreases step,
{
    if step == 0 {
        assert(j == 0);
        assert(frontier(items, order, capacity, step)[j] == empty_packing());
    } else {
        let before = (step - 1) as nat;
        let prev = frontier(items, order, capacity, before);
        let index = order[step - 1];
        let item = items[index as int];
        if takes(prev, item, j) {
            let from = prev[j - item.weight];
            lemma_frontier_fills(items, order, capacity, before, j - item.weight);
            lemma_totals_push(items, from.picks, index);
            let picks = from.picks.push(index);
            assert forall|a: int, b: int|
                0 <= a < picks.len() && 0 <= b < picks.len() && a != b implies picks[a]
                != picks[b] by {
                if a == from.picks.len() {
                    assert(from.picks[b] != order[step - 1]);
                } else if b == from.picks.len() {
                    assert(from.picks[a] != order[step - 1]);
                }
            }
        } else {
            lemma_frontier_fills(items, order, capacity, before, j);
        }
    }
}

} // verus!
