//! Items, instances and the totals of a selection.

use vstd::prelude::*;

verus! {

/// One object that may be packed: what it weighs and what it earns.
#[derive(Debug, Clone, Copy, PartialEq, Eq, Structural)]
pub struct Item {
    pub weight: i64,
    pub profit: i64,
}

/// The weight of the items named by `picks`, counted once per occurrence.
pub open spec fn total_weight(items: Seq<Item>, picks: Seq<usize>) -> int
    decreases picks.len(),
{
    if picks.len() == 0 {
        0
    } else {
        total_weight(items, picks.drop_last()) + items[picks.last() as int].weight
    }
}

/// The profit of the items named by `picks`, counted once per occurrence.
pub open spec fn total_profit(items: Seq<Item>, picks: Seq<usize>) -> int
    decreases picks.len(),
{
    if picks.len() == 0 {
        0
    } else {
        total_profit(items, picks.drop_last()) + items[picks.last() as int].profit
    }
}

/// `picks` names items of a list of `n`, none of them twice.
pub open spec fn is_selection(n: nat, picks: Seq<usize>) -> bool {
    &&& forall|k: int| 0 <= k < picks.len() ==> (#[trigger] picks[k]) < n
    &&& picks.no_duplicates()
}

/// What all the items with a positive profit earn together: no selection earns more.
pub open spec fn profit_ceiling(items: Seq<Item>) -> int
    decreases items.len(),
{
    if items.len() == 0 {
        0
    } else if items.last().profit > 0 {
        profit_ceiling(items.drop_last()) + items.last().profit
    } else {
        profit_ceiling(items.drop_last())
    }
}

/// What all the items with a negative profit earn together: no selection earns less.
pub open spec fn profit_floor(items: Seq<Item>) -> int
    decreases items.len(),
{
    if items.len() == 0 {
        0
    } else if items.last().profit < 0 {
        profit_floor(items.drop_last()) + items.last().profit
    } else {
        profit_floor(items.drop_last())
    }
}

/// An instance the solver accepts: the capacity and every weight are
/// non-negative, and the profit of any selection fits in an `i64`.
pub open spec fn valid_instance(items: Seq<Item>, capacity: int) -> bool {
    &&& capacity >= 0
    &&& forall|k: int| 0 <= k < items.len() ==> (#[trigger] items[k]).weight >= 0
    &&& profit_ceiling(items) <= i64::MAX
    &&& profit_floor(items) >= i64::MIN
}

/// Both bounds grow with the list, the floor downwards.
pub proof fn lemma_profit_bounds_prefix(items: Seq<Item>, k: int)
    requires
        0 <= k <= items.len(),
    ensures
        profit_floor(items) <= profit_floor(items.take(k)) <= 0,
        0 <= profit_ceiling(items.take(k)) <= profit_ceiling(items),
    decreases items.len() - k,
{
    if k == items.len() {
        assert(items.take(k) =~= items);
        lemma_profit_bounds_sign(items);
    } else {
        lemma_profit_bounds_prefix(items, k + 1);
        lemma_profit_bounds_sign(items.take(k));
        assert(items.take(k + 1).drop_last() =~= items.take(k));
        assert(items.take(k + 1).last() == items[k]);
    }
}

/// The ceiling is never negative and the floor never positive.
pub proof fn lemma_profit_bounds_sign(items: Seq<Item>)
    ensures
        profit_floor(items) <= 0 <= profit_ceiling(items),
    decreases items.len(),
{
    if items.len() > 0 {
        lemma_profit_bounds_sign(items.drop_last());
    }
}

/// Tells whether `items` and `capacity` form an instance the solver accepts.
pub fn is_valid_instance(items: &Vec<Item>, capacity: i64) -> (ok: bool)
    ensures
        ok == valid_instance(items@, capacity as int),
{
    if capacity < 0 {
        return false;
    }
    let mut high: i64 = 0;
    let mut low: i64 = 0;
    let mut k: usize = 0;
    while k < items.len()
        invariant
            k <= items.len(),
            high == profit_ceiling(items@.take(k as int)),
            low == profit_floor(items@.take(k as int)),
            forall|m: int| 0 <= m < k ==> (#[trigger] items@[m]).weight >= 0,
        decreases items.len() - k,
    {
        let item = items[k];
        proof {
            assert(items@.take(k + 1).drop_last() =~= items@.take(k as int));
            lemma_profit_bounds_prefix(items@, k + 1);
            lemma_profit_bounds_sign(items@.take(k as int));
        }
        if item.weight < 0 {
            return false;
        }
        if item.profit > 0 {
            if high > i64::MAX - item.profit {
                return false;
            }
            high = high + item.profit;
        } else if item.profit < 0 {
            if low < i64::MIN - item.profit {
                return false;
            }
            low = low + item.profit;
        }
        k = k + 1;
    }
    proof {
        assert(items@.take(k as int) =~= items@);
    }
    true
}

/// The greatest weight among `items`; zero where there is none.
pub open spec fn heaviest(items: Seq<Item>) -> int
    decreases items.len(),
{
    if items.len() == 0 {
        0
    } else if items.last().weight > heaviest(items.drop_last()) {
        items.last().weight as int
    } else {
        heaviest(items.drop_last())
    }
}

/// The greatest weight among `items`; zero where there is none.
pub fn max_weight(items: &Vec<Item>) -> (heavy: i64)
    ensures
        heavy == heaviest(items@),
        heavy >= 0,
{
    let mut heavy: i64 = 0;
    let mut k: usize = 0;
    while k < items.len()
        invariant
            k <= items.len(),
            heavy == heaviest(items@.take(k as int)),
            heavy >= 0,
        decreases items.len() - k,
    {
        proof {
            assert(items@.take(k + 1).drop_last() =~= items@.take(k as int));
        }
        if items[k].weight > heavy {
            heavy = items[k].weight;
        }
        k = k + 1;
    }
    proof {
        assert(items@.take(k as int) =~= items@);
    }
    heavy
}

/// Leaving one pick out lowers both totals by what that item weighs and earns.
pub proof fn lemma_totals_remove(items: Seq<Item>, picks: Seq<usize>, k: int)
    requires
        0 <= k < picks.len(),
    ensures
        total_weight(items, picks) == total_weight(items, picks.remove(k)) + items[picks[k] as int].weight,
        total_profit(items, picks) == total_profit(items, picks.remove(k)) + items[picks[k] as int].profit,
    decreases picks.len(),
{
    if k == picks.len() - 1 {
        assert(picks.remove(k) =~= picks.drop_last());
    } else {
        lemma_totals_remove(items, picks.drop_last(), k);
        assert(picks.remove(k).drop_last() =~= picks.drop_last().remove(k));
        assert(picks.remove(k).last() == picks.last());
    }
}

/// One more pick raises both totals by what that item weighs and earns.
pub proof fn lemma_totals_push(items: Seq<Item>, picks: Seq<usize>, index: usize)
    ensures
        total_weight(items, picks.push(index)) == total_weight(items, picks) + items[index as int].weight,
        total_profit(items, picks.push(index)) == total_profit(items, picks) + items[index as int].profit,
{
    assert(picks.push(index).drop_last() =~= picks);
}

/// A selection among the first `count` items earns no more than their
/// ceiling and no less than their floor.
pub proof fn lemma_selection_profit_bounds(items: Seq<Item>, count: int, picks: Seq<usize>)
    requires
        0 <= count <= items.len(),
        is_selection(count as nat, picks),
    ensures
        profit_floor(items.take(count)) <= total_profit(items, picks) <= profit_ceiling(
            items.take(count),
        ),
    decreases count,
{
    if count == 0 {
        assert(picks.len() == 0) by {
            if picks.len() > 0 {
                assert(picks[0] < 0);
            }
        }
    } else {
        assert(items.take(count).drop_last() =~= items.take(count - 1));
        assert(items.take(count).last() == items[count - 1]);
        if exists|k: int| 0 <= k < picks.len() && picks[k] == count - 1 {
            let k = choose|k: int| 0 <= k < picks.len() && picks[k] == count - 1;
            lemma_totals_remove(items, picks, k);
            lemma_selection_remove(count as nat, picks, k);
            lemma_selection_profit_bounds(items, count - 1, picks.remove(k));
        } else {
            lemma_selection_profit_bounds(items, count - 1, picks);
        }
    }
}

/// A selection of `count` items without its pick of the last item is a
/// selection of the items before that one.
pub proof fn lemma_selection_remove(count: nat, picks: Seq<usize>, k: int)
    requires
        count >= 1,
        is_selection(count, picks),
        0 <= k < picks.len(),
        picks[k] == count - 1,
    ensures
        is_selection((count - 1) as nat, picks.remove(k)),
{
    let rest = picks.remove(k);
    assert forall|m: int| 0 <= m < rest.len() implies (#[trigger] rest[m]) < count - 1 by {
        if m < k {
            assert(rest[m] == picks[m]);
        } else {
            assert(rest[m] == picks[m + 1]);
        }
    }
    assert forall|a: int, b: int| 0 <= a < rest.len() && 0 <= b < rest.len() && a != b implies rest[a]
        != rest[b] by {
        let a2 = if a < k { a } else { a + 1 };
        let b2 = if b < k { b } else { b + 1 };
        assert(rest[a] == picks[a2] && rest[b] == picks[b2]);
    }
}

/// Where no item has a negative weight, no selection has one.
pub proof fn lemma_total_weight_nonnegative(items: Seq<Item>, picks: Seq<usize>)
    requires
        forall|k: int| 0 <= k < items.len() ==> (#[trigger] items[k]).weight >= 0,
        forall|k: int| 0 <= k < picks.len() ==> (#[trigger] picks[k]) < items.len(),
    ensures
        total_weight(items, picks) >= 0,
    decreases picks.len(),
{
    if picks.len() > 0 {
        lemma_total_weight_nonnegative(items, picks.drop_last());
    }
}

/// Where every item weighs something, so does every selection but the empty one.
pub proof fn lemma_total_weight_positive(items: Seq<Item>, picks: Seq<usize>)
    requires
        forall|k: int| 0 <= k < items.len() ==> (#[trigger] items[k]).weight > 0,
        forall|k: int| 0 <= k < picks.len() ==> (#[trigger] picks[k]) < items.len(),
        picks.len() > 0,
    ensures
        total_weight(items, picks) > 0,
{
    lemma_total_weight_nonnegative(items, picks.drop_last());
}

/// What the items named by `picks` weigh together.
pub fn selected_weight(items: &Vec<Item>, picks: &Vec<usize>) -> (total: i128)
    requires
        forall|k: int| 0 <= k < picks@.len() ==> (#[trigger] picks@[k]) < items@.len(),
    ensures
        total == total_weight(items@, picks@),
{
    let mut total: i128 = 0;
    let mut k: usize = 0;
    while k < picks.len()
        invariant
            k <= picks.len(),
            forall|m: int| 0 <= m < picks@.len() ==> (#[trigger] picks@[m]) < items@.len(),
            total == total_weight(items@, picks@.take(k as int)),
            -0x8000_0000_0000_0000 * k <= total <= 0x8000_0000_0000_0000 * k,
        decreases picks.len() - k,
    {
        proof {
            assert(picks@.take(k + 1).drop_last() =~= picks@.take(k as int));
        }
        total = total + items[picks[k]].weight as i128;
        k = k + 1;
    }
    proof {
        assert(picks@.take(k as int) =~= picks@);
    }
    total
}

/// What the items named by `picks` earn together.
pub fn selected_profit(items: &Vec<Item>, picks: &Vec<usize>) -> (total: i128)
    requires
        forall|k: int| 0 <= k < picks@.len() ==> (#[trigger] picks@[k]) < items@.len(),
    ensures
        total == total_profit(items@, picks@),
{
    let mut total: i128 = 0;
    let mut k: usize = 0;
    while k < picks.len()
        invariant
            k <= picks.len(),
            forall|m: int| 0 <= m < picks@.len() ==> (#[trigger] picks@[m]) < items@.len(),
            total == total_profit(items@, picks@.take(k as int)),
            -0x8000_0000_0000_0000 * k <= total <= 0x8000_0000_0000_0000 * k,
        decreases picks.len() - k,
    {
        proof {
            assert(picks@.take(k + 1).drop_last() =~= picks@.take(k as int));
        }
        total = total + items[picks[k]].profit as i128;
        k = k + 1;
    }
    proof {
        assert(picks@.take(k as int) =~= picks@);
    }
    total
}

} // verus!
