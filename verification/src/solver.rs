//! The banded dynamic program itself.

use crate::band::band_window;
use crate::frontier::{
    advance, empty_packing, frontier, initial_frontier, is_banded_solution, is_best,
    is_permutation, leads, lemma_frontier_fills, Packing,
};
use crate::item::{
    heaviest, is_selection, lemma_selection_profit_bounds, lemma_total_weight_positive,
    lemma_totals_push, max_weight, total_profit, total_weight, valid_instance, Item,
};
use crate::optimum::{lemma_optimum_is_upper_bound, optimal_profit};
use rand::seq::SliceRandom;
use vstd::prelude::*;
use vstd::seq_lib::{to_multiset_contains, to_multiset_len};

verus! {

/// What one cell of a window holds: the profit and the picks of the best
/// packing that fills its capacity, or nothing where none does.
type Cell = Option<(i64, Vec<usize>)>;

/// The packing that a filled cell stands for.
pub open spec fn packing_of(best: (i64, Vec<usize>)) -> Packing {
    Packing { profit: best.0 as int, picks: best.1@ }
}

/// The window of one step: a cell for each capacity from `low` on.
struct Frontier {
    low: i64,
    cells: Vec<Cell>,
}

impl Frontier {
    /// The capacities of the window fit in an `i64`.
    spec fn wf(&self) -> bool {
        0 <= self.low && self.low + self.cells@.len() <= i64::MAX + 1
    }

    /// Whether the window holds a packing for capacity `j`.
    spec fn holds(&self, j: int) -> bool {
        self.low <= j < self.low + self.cells@.len() && self.cells@[j - self.low] is Some
    }

    /// The frontier that the window stands for.
    spec fn view(&self) -> Map<int, Packing> {
        Map::new(|j: int| self.holds(j), |j: int| packing_of(self.cells@[j - self.low]->0))
    }

    /// The cell of capacity `j`, where the window has a packing for it.
    fn get(&self, j: i64) -> (cell: Option<&(i64, Vec<usize>)>)
        requires
            self.wf(),
        ensures
            match cell {
                Some(c) => self@.contains_key(j as int) && self@[j as int] == packing_of(*c),
                None => !self@.contains_key(j as int),
            },
    {
        if j < self.low {
            return None;
        }
        let offset: u64 = (j - self.low) as u64;
        if offset >= self.cells.len() as u64 {
            return None;
        }
        self.cells[offset as usize].as_ref()
    }
}

/// A copy of a list of picks.
fn copy_picks(picks: &Vec<usize>) -> (copy: Vec<usize>)
    ensures
        copy@ == picks@,
{
    let copy = picks.clone();
    assert(copy@ =~= picks@);
    copy
}

/// A copy of what an optional cell holds.
fn copy_cell(cell: Option<&(i64, Vec<usize>)>) -> (copy: Cell)
    ensures
        match (cell, copy) {
            (Some(c), Some(d)) => packing_of(*c) == packing_of(d),
            (None, None) => true,
            _ => false,
        },
{
    match cell {
        Some(c) => Some((c.0, copy_picks(&c.1))),
        None => None,
    }
}

/// The profit that a filled cell records.
spec fn cell_profit(cell: Cell) -> int {
    packing_of(cell->0).profit
}

/// Whether `cell` holds what the frontier `f` has for capacity `j`.
spec fn cell_matches(cell: Cell, f: Map<int, Packing>, j: int) -> bool {
    match cell {
        Some(c) => f.contains_key(j) && f[j] == packing_of(c),
        None => !f.contains_key(j),
    }
}

/// One step of the dynamic program: the window from `low` to `high` after
/// the item `index`, built from the window before it.
fn advance_frontier(prev: &Frontier, item: Item, index: usize, low: i64, high: i64) -> (next:
    Frontier)
    requires
        prev.wf(),
        0 <= low <= high,
        item.weight >= 0,
        forall|j: int| #[trigger]
            prev@.contains_key(j) ==> i64::MIN <= prev@[j].profit + item.profit <= i64::MAX,
    ensures
        next.wf(),
        next@ == advance(prev@, item, index, low as int, high as int),
{
    let width: u64 = (high - low) as u64 + 1;
    let mut cells: Vec<Cell> = Vec::new();
    let mut done: u64 = 0;
    let ghost target = advance(prev@, item, index, low as int, high as int);
    while done < width
        invariant
            done <= width,
            width == high - low + 1,
            0 <= low <= high,
            item.weight >= 0,
            prev.wf(),
            cells@.len() == done,
            target == advance(prev@, item, index, low as int, high as int),
            forall|j: int| #[trigger]
                prev@.contains_key(j) ==> i64::MIN <= prev@[j].profit + item.profit <= i64::MAX,
            forall|k: int| 0 <= k < done ==> cell_matches(#[trigger] cells@[k], target, low + k),
        decreases width - done,
    {
        let j: i64 = low + done as i64;
        let skip = prev.get(j);
        let take = if j >= item.weight {
            prev.get(j - item.weight)
        } else {
            None
        };
        let cell: Cell = match take {
            Some(from) => {
                let profit: i64 = from.0 + item.profit;
                let better = match skip {
                    Some(keep) => profit > keep.0,
                    None => true,
                };
                if better {
                    let mut picks = copy_picks(&from.1);
                    picks.push(index);
                    Some((profit, picks))
                } else {
                    copy_cell(skip)
                }
            },
            None => copy_cell(skip),
        };
        assert(cell_matches(cell, target, j as int));
        cells.push(cell);
        done = done + 1;
    }
    let next = Frontier { low, cells };
    assert(next@ =~= target) by {
        assert forall|j: int| next@.contains_key(j) == target.contains_key(j) by {
            if low <= j <= high {
                assert(cell_matches(next.cells@[j - low], target, low + (j - low)));
            }
        }
        assert forall|j: int| next@.contains_key(j) implies next@[j] == target[j] by {
            assert(cell_matches(next.cells@[j - low], target, low + (j - low)));
        }
    }
    next
}

/// The answer read off the last window: the packing that earns most, the
/// one at the smallest capacity where several earn the same.
fn pick_best(last: &Frontier) -> (best: (i64, Vec<usize>))
    requires
        last.wf(),
    ensures
        is_best(last@, packing_of(best)),
{
    let mut found: Option<usize> = None;
    let mut profit: i64 = 0;
    let mut k: usize = 0;
    while k < last.cells.len()
        invariant
            k <= last.cells@.len(),
            last.wf(),
            match found {
                Some(b) => b < k && last.cells@[b as int] is Some && cell_profit(
                    last.cells@[b as int],
                ) == profit,
                None => true,
            },
            forall|m: int|
                0 <= m < k && (#[trigger] last.cells@[m]) is Some ==> found is Some
                    && cell_profit(last.cells@[m]) <= profit && (m < found->0 ==> cell_profit(
                    last.cells@[m],
                ) < profit),
        decreases last.cells@.len() - k,
    {
        match &last.cells[k] {
            Some(c) => {
                let better = match found {
                    Some(_) => c.0 > profit,
                    None => true,
                };
                if better {
                    found = Some(k);
                    profit = c.0;
                }
            },
            None => {},
        }
        k = k + 1;
    }
    match found {
        Some(b) => {
            let best = (profit, copy_picks(&last.cells[b].as_ref().unwrap().1));
            proof {
                let j = last.low + b;
                assert(last@.contains_key(j));
                assert(last@[j] == packing_of(best));
                assert forall|q: int| #[trigger] last@.contains_key(q) implies last@[q].profit
                    <= last@[j].profit && (q < j ==> last@[q].profit < last@[j].profit) by {
                    assert(last.cells@[q - last.low] is Some);
                }
                assert(leads(last@, j));
            }
            best
        },
        None => {
            let best = (0i64, Vec::new());
            proof {
                assert forall|q: int| !last@.contains_key(q) by {
                    if last.holds(q) {
                        assert(last.cells@[q - last.low] is Some);
                    }
                }
                assert(packing_of(best) == empty_packing());
            }
            best
        },
    }
}

/// Taking the next item on top of any packing of the frontier keeps the
/// profit within an `i64`.
proof fn lemma_take_fits(items: Seq<Item>, order: Seq<usize>, capacity: int, step: nat, j: int)
    requires
        valid_instance(items, capacity),
        is_permutation(order, items.len()),
        step < items.len(),
        frontier(items, order, capacity, step).contains_key(j),
    ensures
        i64::MIN <= frontier(items, order, capacity, step)[j].profit + items[order[step as int] as int].profit
            <= i64::MAX,
{
    let p = frontier(items, order, capacity, step)[j];
    let index = order[step as int];
    lemma_frontier_fills(items, order, capacity, step, j);
    lemma_totals_push(items, p.picks, index);
    let picks = p.picks.push(index);
    assert forall|a: int, b: int|
        0 <= a < picks.len() && 0 <= b < picks.len() && a != b implies picks[a] != picks[b] by {
        if a == p.picks.len() {
            assert(p.picks[b] != order[step as int]);
        } else if b == p.picks.len() {
            assert(p.picks[a] != order[step as int]);
        }
    }
    lemma_selection_profit_bounds(items, items.len() as int, picks);
    assert(items.take(items.len() as int) =~= items);
}

/// Whatever the order, the answer of the banded dynamic program is a
/// selection of the items that fits in the capacity, its profit is what the
/// selected items earn, and that is no more than the exact optimum. With no
/// items, or with no capacity and no weightless item, it is the empty
/// packing.
pub proof fn lemma_banded_solution_is_feasible(
    items: Seq<Item>,
    order: Seq<usize>,
    capacity: int,
    best: Packing,
)
    requires
        valid_instance(items, capacity),
        is_permutation(order, items.len()),
        is_banded_solution(items, order, capacity, best),
    ensures
        is_selection(items.len(), best.picks),
        total_weight(items, best.picks) <= capacity,
        total_profit(items, best.picks) == best.profit,
        best.profit <= optimal_profit(items, capacity),
        items.len() == 0 ==> best == empty_packing(),
        capacity == 0 && (forall|k: int| 0 <= k < items.len() ==> (#[trigger] items[k]).weight > 0)
            ==> best == empty_packing(),
{
    let last = frontier(items, order, capacity, items.len());
    if exists|j: int| last.contains_key(j) {
        let j = choose|j: int| #[trigger] last.contains_key(j) && last[j] == best && leads(last, j);
        lemma_frontier_fills(items, order, capacity, items.len(), j);
        if items.len() == 0 {
            assert(last =~= initial_frontier());
        }
        if capacity == 0 && (forall|k: int|
            0 <= k < items.len() ==> (#[trigger] items[k]).weight > 0) {
            if best.picks.len() > 0 {
                lemma_total_weight_positive(items, best.picks);
            }
            assert(best.picks =~= Seq::empty());
        }
    }
    lemma_optimum_is_upper_bound(items, items.len(), capacity, best.picks);
}

/// Solves the instance by the banded dynamic program, seeing the items in
/// the given order. The answer is the profit and the indices of the items
/// packed, in the order in which they were seen.
pub fn solve_in_order(items: &Vec<Item>, order: &Vec<usize>, capacity: i64) -> (best: (
    i64,
    Vec<usize>,
))
    requires
        valid_instance(items@, capacity as int),
        is_permutation(order@, items@.len()),
    ensures
        is_banded_solution(items@, order@, capacity as int, packing_of(best)),
        is_selection(items@.len(), best.1@),
        total_weight(items@, best.1@) <= capacity,
        total_profit(items@, best.1@) == best.0,
        best.0 <= optimal_profit(items@, capacity as int),
        items@.len() == 0 ==> best.0 == 0 && best.1@.len() == 0,
        capacity == 0 && (forall|k: int| 0 <= k < items@.len() ==> (#[trigger] items@[k]).weight > 0)
            ==> best.0 == 0 && best.1@.len() == 0,
{
    let n = items.len();
    let heavy = max_weight(items);
    let mut cells: Vec<Cell> = Vec::new();
    cells.push(Some((0i64, Vec::new())));
    let mut current = Frontier { low: 0, cells };
    assert(current@ =~= initial_frontier());
    let mut step: usize = 0;
    while step < n
        invariant
            n == items@.len(),
            step <= n,
            current.wf(),
            current@ == frontier(items@, order@, capacity as int, step as nat),
            heavy == heaviest(items@),
            valid_instance(items@, capacity as int),
            is_permutation(order@, items@.len()),
        decreases n - step,
    {
        let index = order[step];
        let item = items[index];
        let window = band_window(step + 1, n, capacity, heavy);
        proof {
            assert forall|j: int| #[trigger] current@.contains_key(j) implies i64::MIN
                <= current@[j].profit + item.profit <= i64::MAX by {
                lemma_take_fits(items@, order@, capacity as int, step as nat, j);
            }
        }
        let next = advance_frontier(&current, item, index, window.0, window.1);
        current = next;
        step = step + 1;
    }
    let best = pick_best(&current);
    proof {
        lemma_banded_solution_is_feasible(items@, order@, capacity as int, packing_of(best));
    }
    best
}

/// Shuffles `order` in place with `rand`'s `SliceRandom::shuffle`, drawing
/// from the thread's generator that `rand::rng` hands out. Nothing here is
/// proved; the contract claims what holds of every outcome: the shuffle only
/// swaps elements, so none is added, lost or changed. That every order is as
/// likely as any other is `rand`'s promise and is not stated. `rand` seeds
/// the generator from the operating system when a thread first asks for it,
/// and panics if the system gives no seed.
#[verifier::external_body]
fn shuffle_order(order: &mut Vec<usize>)
    ensures
        final(order)@.to_multiset() == old(order)@.to_multiset(),
{
    order.shuffle(&mut rand::rng());
}

/// The indices below `count` in a random order.
pub fn random_order(count: usize) -> (order: Vec<usize>)
    ensures
        is_permutation(order@, count as nat),
{
    let mut order: Vec<usize> = Vec::new();
    let mut k: usize = 0;
    while k < count
        invariant
            k <= count,
            order@.len() == k,
            forall|m: int| 0 <= m < k ==> (#[trigger] order@[m]) == m,
        decreases count - k,
    {
        order.push(k);
        k = k + 1;
    }
    let ghost sorted = order@;
    shuffle_order(&mut order);
    proof {
        broadcast use {to_multiset_len, to_multiset_contains};

        assert(order@.len() == sorted.len()) by {
            assert(order@.to_multiset().len() == order@.len());
            assert(sorted.to_multiset().len() == sorted.len());
        }
        assert forall|m: int| 0 <= m < order@.len() implies (#[trigger] order@[m]) < count by {
            assert(order@.contains(order@[m]));
            assert(order@.to_multiset().count(order@[m]) > 0);
            assert(sorted.contains(order@[m]));
        }
        sorted.lemma_multiset_has_no_duplicates();
        order@.lemma_multiset_has_no_duplicates_conv();
    }
    order
}

/// Solves the instance approximately: shuffles the items and runs the
/// banded dynamic program over them. The answer is the profit and the
/// indices, into `items`, of the items packed.
pub fn knapsack_randomized(items: Vec<Item>, capacity: i64) -> (best: (i64, Vec<usize>))
    requires
        valid_instance(items@, capacity as int),
    ensures
        exists|order: Seq<usize>|
            is_permutation(order, items@.len()) && #[trigger] is_banded_solution(
                items@,
                order,
                capacity as int,
                packing_of(best),
            ),
        is_selection(items@.len(), best.1@),
        total_weight(items@, best.1@) <= capacity,
        total_profit(items@, best.1@) == best.0,
        best.0 <= optimal_profit(items@, capacity as int),
        items@.len() == 0 ==> best.0 == 0 && best.1@.len() == 0,
        capacity == 0 && (forall|k: int| 0 <= k < items@.len() ==> (#[trigger] items@[k]).weight > 0)
            ==> best.0 == 0 && best.1@.len() == 0,
{
    let order = random_order(items.len());
    solve_in_order(&items, &order, capacity)
}

} // verus!
