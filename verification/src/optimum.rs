//! The exact optimum, to measure the banded answer against.

use crate::item::{
    is_selection, lemma_selection_remove, lemma_total_weight_nonnegative, lemma_totals_push,
    lemma_totals_remove, total_profit, total_weight, Item,
};
use vstd::prelude::*;

verus! {

/// `picks` is a selection of `items` that fits in `capacity`.
pub open spec fn is_feasible(items: Seq<Item>, capacity: int, picks: Seq<usize>) -> bool {
    is_selection(items.len(), picks) && total_weight(items, picks) <= capacity
}

/// Every item weighs zero or more.
pub open spec fn weights_nonnegative(items: Seq<Item>) -> bool {
    forall|k: int| 0 <= k < items.len() ==> (#[trigger] items[k]).weight >= 0
}

/// The most that a selection among the first `count` items can earn within
/// `capacity`: the classical recurrence, each item either left out or,
/// where it fits, put in.
pub open spec fn best_profit(items: Seq<Item>, count: nat, capacity: int) -> int
    decreases count,
{
    if count == 0 {
        0
    } else {
        let item = items[count - 1];
        let without = best_profit(items, (count - 1) as nat, capacity);
        if item.weight <= capacity {
            let with = best_profit(items, (count - 1) as nat, capacity - item.weight)
                + item.profit;
            if with > without {
                with
            } else {
                without
            }
        } else {
            without
        }
    }
}

/// The most that any selection of `items` can earn within `capacity`.
pub open spec fn optimal_profit(items: Seq<Item>, capacity: int) -> int {
    best_profit(items, items.len(), capacity)
}

/// More capacity never lowers the optimum.
pub proof fn lemma_optimum_monotone(items: Seq<Item>, count: nat, smaller: int, larger: int)
    requires
        count <= items.len(),
        smaller <= larger,
    ensures
        best_profit(items, count, smaller) <= best_profit(items, count, larger),
    decreases count,
{
    if count > 0 {
        let item = items[count - 1];
        lemma_optimum_monotone(items, (count - 1) as nat, smaller, larger);
        lemma_optimum_monotone(
            items,
            (count - 1) as nat,
            smaller - item.weight,
            larger - item.weight,
        );
    }
}

/// No selection among the first `count` items that fits in `capacity` earns
/// more than the optimum.
pub proof fn lemma_optimum_is_upper_bound(
    items: Seq<Item>,
    count: nat,
    capacity: int,
    picks: Seq<usize>,
)
    requires
        count <= items.len(),
        weights_nonnegative(items),
        is_selection(count, picks),
        total_weight(items, picks) <= capacity,
    ensures
        total_profit(items, picks) <= best_profit(items, count, capacity),
    decreases count,
{
    if count == 0 {
        assert(picks.len() == 0) by {
            if picks.len() > 0 {
                assert(picks[0] < 0);
            }
        }
    } else {
        if exists|k: int| 0 <= k < picks.len() && picks[k] == count - 1 {
            let k = choose|k: int| 0 <= k < picks.len() && picks[k] == count - 1;
            let rest = picks.remove(k);
            lemma_totals_remove(items, picks, k);
            lemma_selection_remove(count, picks, k);
            lemma_total_weight_nonnegative(items, rest);
            lemma_optimum_is_upper_bound(
                items,
                (count - 1) as nat,
                capacity - items[count - 1].weight,
                rest,
            );
        } else {
            lemma_optimum_is_upper_bound(items, (count - 1) as nat, capacity, picks);
        }
    }
}

/// Some selection among the first `count` items fits in `capacity` and earns
/// the optimum.
pub proof fn lemma_optimum_is_attained(items: Seq<Item>, count: nat, capacity: int) -> (picks: Seq<
    usize,
>)
    requires
        count <= items.len() <= usize::MAX,
        capacity >= 0,
    ensures
        is_selection(count, picks),
        total_weight(items, picks) <= capacity,
        total_profit(items, picks) == best_profit(items, count, capacity),
    decreases count,
{
    if count == 0 {
        Seq::empty()
    } else {
        let item = items[count - 1];
        let without = best_profit(items, (count - 1) as nat, capacity);
        if item.weight <= capacity && best_profit(
            items,
            (count - 1) as nat,
            capacity - item.weight,
        ) + item.profit > without {
            let rest = lemma_optimum_is_attained(
                items,
                (count - 1) as nat,
                capacity - item.weight,
            );
            let index = (count - 1) as usize;
            lemma_totals_push(items, rest, index);
            rest.push(index)
        } else {
            lemma_optimum_is_attained(items, (count - 1) as nat, capacity)
        }
    }
}

} // verus!
