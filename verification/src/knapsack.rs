use vstd::prelude::*;

use crate::chromosome::Chromosome;
use crate::chromosome::spec_fitness;
use crate::clock::duration_as_nanos;
use crate::clock::instant_elapsed;
use crate::clock::instant_now;
use crate::item::Item;
use crate::rng::rand_below;
use crate::statistics::Statistics;
use crate::statistics::collect;
use crate::statistics::valid_summary;

verus! {

/// Number of randomly sampled participants in one selection tournament.
pub const TOURNAMENT_SIZE: usize = 16;

/// A multidimensional knapsack problem instance: an ordered vector of
/// per-dimension capacities and an ordered sequence of items. Immutable
/// once constructed; every candidate solution is evaluated against it.
#[derive(Debug)]
pub struct Knapsack {
    pub capacity: Vec<u64>,
    pub items: Vec<Item>,
}

/// Sum of the weights in dimension `d` of the first `n` items.
pub open spec fn total_weight(items: Seq<Item>, d: int, n: int) -> int
    decreases n,
{
    if n <= 0 {
        0
    } else {
        total_weight(items, d, n - 1) + items[n - 1].weight@[d]
    }
}

/// Sum of the weights in dimension `d` of the selected ones among the
/// first `n` items.
pub open spec fn sel_weight(items: Seq<Item>, sel: Seq<bool>, d: int, n: int) -> int
    decreases n,
{
    if n <= 0 {
        0
    } else {
        sel_weight(items, sel, d, n - 1) + if sel[n - 1] {
            items[n - 1].weight@[d] as int
        } else {
            0
        }
    }
}

/// Sum of the values of the first `n` items.
pub open spec fn total_value(items: Seq<Item>, n: int) -> int
    decreases n,
{
    if n <= 0 {
        0
    } else {
        total_value(items, n - 1) + items[n - 1].value
    }
}

/// Sum of the values of the selected ones among the first `n` items.
pub open spec fn sel_value(items: Seq<Item>, sel: Seq<bool>, n: int) -> int
    decreases n,
{
    if n <= 0 {
        0
    } else {
        sel_value(items, sel, n - 1) + if sel[n - 1] {
            items[n - 1].value as int
        } else {
            0
        }
    }
}

/// How many of the first `n` selection bits are set.
pub open spec fn count_selected(sel: Seq<bool>, n: int) -> int
    decreases n,
{
    if n <= 0 {
        0
    } else {
        count_selected(sel, n - 1) + if sel[n - 1] {
            1int
        } else {
            0int
        }
    }
}

/// The invariants an instance is built under: every item has one weight
/// per dimension and the 1-based identifier equal to its position plus
/// one, and the totals are small enough that feasibility arithmetic
/// stays within machine bounds.
pub open spec fn spec_valid_instance(capacity: Seq<u64>, items: Seq<Item>) -> bool {
    &&& forall|i: int|
        0 <= i < items.len() ==> (#[trigger] items[i]).weight@.len() == capacity.len()
    &&& forall|i: int| 0 <= i < items.len() ==> (#[trigger] items[i]).id == i + 1
    &&& items.len() <= u64::MAX
    &&& forall|d: int| 0 <= d < capacity.len() ==> (#[trigger] capacity[d]) <= i64::MAX
    &&& forall|d: int|
        0 <= d < capacity.len() ==> #[trigger] total_weight(items, d, items.len() as int)
            <= i64::MAX
    &&& total_value(items, items.len() as int) <= u64::MAX
}

impl Knapsack {
    /// Number of capacity dimensions.
    pub open spec fn dims(self) -> int {
        self.capacity@.len() as int
    }

    /// Number of items.
    pub open spec fn n_items(self) -> int {
        self.items@.len() as int
    }

    /// Well-formedness of an instance: see `spec_valid_instance`.
    pub open spec fn wf(self) -> bool {
        spec_valid_instance(self.capacity@, self.items@)
    }

    /// Remaining capacity in dimension `d` once the selected items of
    /// `sel` are packed; negative when the dimension is over-committed.
    pub open spec fn spec_capacity_left(self, sel: Seq<bool>, d: int) -> int {
        self.capacity@[d] - sel_weight(self.items@, sel, d, self.n_items())
    }

    /// A selection is feasible when no dimension is over-committed.
    pub open spec fn spec_feasible(self, sel: Seq<bool>) -> bool {
        forall|d: int| 0 <= d < self.dims() ==> self.spec_capacity_left(sel, d) >= 0
    }

    /// Adding `item` to the selection keeps every dimension non-negative.
    pub open spec fn spec_fits(self, sel: Seq<bool>, item: Item) -> bool {
        forall|d: int|
            0 <= d < self.dims() ==> self.spec_capacity_left(sel, d) >= (#[trigger] item.weight@[d])
    }
}

/// Partial weight sums are non-negative and bounded by the all-items sum.
pub proof fn lemma_sel_weight_bounds(items: Seq<Item>, sel: Seq<bool>, d: int, n: int)
    ensures
        0 <= sel_weight(items, sel, d, n),
        sel_weight(items, sel, d, n) <= total_weight(items, d, n),
    decreases n,
{
    if n > 0 {
        lemma_sel_weight_bounds(items, sel, d, n - 1);
    }
}

/// The all-items weight sum grows with the number of items summed.
pub proof fn lemma_total_weight_mono(items: Seq<Item>, d: int, n1: int, n2: int)
    requires
        n1 <= n2,
    ensures
        total_weight(items, d, n1) <= total_weight(items, d, n2),
    decreases n2 - n1,
{
    if n1 < n2 {
        lemma_total_weight_mono(items, d, n1, n2 - 1);
    }
}

/// Each single item's weight is bounded by the all-items sum over any
/// prefix that contains it.
pub proof fn lemma_item_weight_le_total(items: Seq<Item>, d: int, i: int, n: int)
    requires
        0 <= i < n,
    ensures
        items[i].weight@[d] <= total_weight(items, d, n),
    decreases n,
{
    lemma_total_weight_mono(items, d, i + 1, n);
    lemma_total_weight_mono(items, d, 0, i);
}

/// Partial value sums are non-negative and bounded by the all-items sum.
pub proof fn lemma_sel_value_bounds(items: Seq<Item>, sel: Seq<bool>, n: int)
    ensures
        0 <= sel_value(items, sel, n),
        sel_value(items, sel, n) <= total_value(items, n),
    decreases n,
{
    if n > 0 {
        lemma_sel_value_bounds(items, sel, n - 1);
    }
}

/// The all-items value sum grows with the number of items summed.
pub proof fn lemma_total_value_mono(items: Seq<Item>, n1: int, n2: int)
    requires
        n1 <= n2,
    ensures
        total_value(items, n1) <= total_value(items, n2),
    decreases n2 - n1,
{
    if n1 < n2 {
        lemma_total_value_mono(items, n1, n2 - 1);
    }
}

/// Weight sums read only the first `n` bits of the selection: flipping
/// bit `j` changes the sum by exactly that item's weight, and flipping a
/// bit at or past `n` changes nothing.
pub proof fn lemma_sel_weight_update(items: Seq<Item>, sel: Seq<bool>, d: int, n: int, j: int, b: bool)
    requires
        0 <= j < sel.len(),
        n <= sel.len(),
    ensures
        j >= n ==> sel_weight(items, sel.update(j, b), d, n) == sel_weight(items, sel, d, n),
        j < n && sel[j] == b ==> sel_weight(items, sel.update(j, b), d, n) == sel_weight(
            items,
            sel,
            d,
            n,
        ),
        j < n && !sel[j] && b ==> sel_weight(items, sel.update(j, b), d, n) == sel_weight(
            items,
            sel,
            d,
            n,
        ) + items[j].weight@[d],
        j < n && sel[j] && !b ==> sel_weight(items, sel.update(j, b), d, n) == sel_weight(
            items,
            sel,
            d,
            n,
        ) - items[j].weight@[d],
    decreases n,
{
    if n > 0 {
        lemma_sel_weight_update(items, sel, d, n - 1, j, b);
    }
}

/// So does the count of selected bits.
pub proof fn lemma_count_selected_update(sel: Seq<bool>, n: int, j: int, b: bool)
    requires
        0 <= j < sel.len(),
        n <= sel.len(),
    ensures
        j >= n ==> count_selected(sel.update(j, b), n) == count_selected(sel, n),
        j < n && sel[j] == b ==> count_selected(sel.update(j, b), n) == count_selected(sel, n),
        j < n && !sel[j] && b ==> count_selected(sel.update(j, b), n) == count_selected(sel, n) + 1,
        j < n && sel[j] && !b ==> count_selected(sel.update(j, b), n) == count_selected(sel, n) - 1,
    decreases n,
{
    if n > 0 {
        lemma_count_selected_update(sel, n - 1, j, b);
    }
}

/// A selection with no set bit weighs nothing, and the count of selected
/// bits is non-negative and zero exactly when no bit among the first `n`
/// is set.
pub proof fn lemma_empty_selection(items: Seq<Item>, sel: Seq<bool>, d: int, n: int)
    ensures
        count_selected(sel, n) >= 0,
        count_selected(sel, n) == 0 ==> sel_weight(items, sel, d, n) == 0,
    decreases n,
{
    if n > 0 {
        lemma_empty_selection(items, sel, d, n - 1);
    }
}

/// A selection with no item selected is feasible: every dimension keeps
/// its full capacity.
pub proof fn lemma_unselected_feasible(k: Knapsack, sel: Seq<bool>)
    requires
        forall|j: int| 0 <= j < sel.len() ==> !sel[j],
        sel.len() == k.n_items(),
    ensures
        k.spec_feasible(sel),
{
    assert forall|dd: int| 0 <= dd < k.dims() implies k.spec_capacity_left(sel, dd) >= 0 by {
        lemma_count_selected_range(sel, k.n_items());
        lemma_empty_selection(k.items@, sel, dd, k.n_items());
    }
}

/// An unselected position strictly below `n` keeps the count of
/// selected bits strictly below `n`.
pub proof fn lemma_count_selected_lt(sel: Seq<bool>, n: int, j: int)
    requires
        0 <= j < n,
        !sel[j],
    ensures
        count_selected(sel, n) < n,
    decreases n,
{
    lemma_count_selected_range(sel, n);
    if j == n - 1 {
        lemma_count_selected_range(sel, n - 1);
    } else {
        lemma_count_selected_lt(sel, n - 1, j);
    }
}

/// The count of selected bits lies between zero and `n`, and is zero
/// when no bit among the first `n` is set.
pub proof fn lemma_count_selected_range(sel: Seq<bool>, n: int)
    ensures
        0 <= count_selected(sel, n) <= if n <= 0 {
            0int
        } else {
            n
        },
        (forall|j: int| 0 <= j < n ==> !sel[j]) ==> count_selected(sel, n) == 0,
        count_selected(sel, n) > 0 ==> exists|j: int| 0 <= j < n && sel[j],
    decreases n,
{
    if n > 0 {
        lemma_count_selected_range(sel, n - 1);
    }
}

/// Fixed-point scale applied to each relative-consumption term
/// `weight / capacity_left`.
pub const TERM_SCALE: u128 = 0x100000;

/// Fixed-point scale applied to the value before the final division.
pub const VALUE_SCALE: u128 = 0x10000000000;

/// Magnitude at which the accumulated consumption sum saturates, so that
/// the arithmetic stays inside `i128` for any number of dimensions.
pub const SUM_CLAMP: i128 = 0x10000000000000000000000000;

/// One relative-consumption term of the profit-density denominator, in
/// fixed point: `weight * TERM_SCALE / capacity_left`, zero when the
/// dimension's remaining capacity is exactly zero (that case is flagged
/// separately), negative when the dimension is over-committed.
pub open spec fn spec_term(w: u64, left: i64) -> int {
    if left == 0 {
        0
    } else if left > 0 {
        (w * TERM_SCALE) / (left as int)
    } else {
        -((w * TERM_SCALE) / -(left as int))
    }
}

/// Saturate into `[-SUM_CLAMP, SUM_CLAMP]`.
pub open spec fn spec_clamp(x: int) -> int {
    if x > SUM_CLAMP {
        SUM_CLAMP as int
    } else if x < -SUM_CLAMP {
        -SUM_CLAMP as int
    } else {
        x
    }
}

/// The saturating sum of the first `n` relative-consumption terms.
pub open spec fn spec_sum_terms(w: Seq<u64>, left: Seq<i64>, n: int) -> int
    decreases n,
{
    if n <= 0 {
        0
    } else {
        spec_clamp(spec_sum_terms(w, left, n - 1) + spec_term(w[n - 1], left[n - 1]))
    }
}

/// True when the item consumes a dimension whose remaining capacity is
/// exactly zero: its profit density collapses to the bottom rank.
pub open spec fn spec_zero_div(w: Seq<u64>, left: Seq<i64>, n: int) -> bool {
    exists|d: int| 0 <= d < n && left[d] == 0 && w[d] > 0
}

/// The Toyoda-style profit density of an item against a remaining
/// capacity vector, as a fixed-point integer: `value` divided by the sum
/// over all dimensions of `weight / capacity_left`. Items consuming an
/// exhausted dimension score zero; a zero denominator with a positive
/// value scores at the top. Higher scores are preferred; equal scores
/// are ties. This is a total, deterministic order on every input.
pub open spec fn spec_score(value: u64, w: Seq<u64>, left: Seq<i64>) -> int {
    let n = w.len() as int;
    if spec_zero_div(w, left, n) {
        0
    } else {
        let s = spec_sum_terms(w, left, n);
        if s == 0 {
            if value > 0 {
                i128::MAX as int
            } else {
                0
            }
        } else if s > 0 {
            (value * VALUE_SCALE) / s
        } else {
            -((value * VALUE_SCALE) / -s)
        }
    }
}

/// The saturating sum never leaves the clamp interval.
pub proof fn lemma_sum_terms_bounded(w: Seq<u64>, left: Seq<i64>, n: int)
    ensures
        -SUM_CLAMP <= spec_sum_terms(w, left, n) <= SUM_CLAMP,
    decreases n,
{
    if n > 0 {
        lemma_sum_terms_bounded(w, left, n - 1);
    }
}

/// A quotient of non-negative by positive is at most the dividend.
pub proof fn lemma_div_le_dividend(x: int, d: int)
    requires
        0 <= x,
        1 <= d,
    ensures
        0 <= x / d <= x,
{
    vstd::arithmetic::div_mod::lemma_div_is_ordered_by_denominator(x, 1, d);
    vstd::arithmetic::div_mod::lemma_div_basics(x);
    vstd::arithmetic::div_mod::lemma_div_pos_is_pos(x, d);
}

/// The remaining-capacity vector of a selection, as the signed values
/// the executable arithmetic produces.
pub open spec fn spec_left_vec(k: Knapsack, sel: Seq<bool>) -> Seq<i64> {
    Seq::new(k.capacity@.len(), |d: int| k.spec_capacity_left(sel, d) as i64)
}

/// The profit density of item `j` against the remaining capacities of
/// the selection `sel`.
pub open spec fn spec_item_score(k: Knapsack, sel: Seq<bool>, j: int) -> int {
    spec_score(k.items@[j].value, k.items@[j].weight@, spec_left_vec(k, sel))
}

/// The index the greedy construction prefers among the unselected ones
/// of the first `n` items: the first index whose profit density against
/// the selection's remaining capacities is maximal, or -1 when every
/// one of the first `n` items is selected.
pub open spec fn spec_best_unselected(k: Knapsack, sel: Seq<bool>, n: int) -> int
    decreases n,
{
    if n <= 0 {
        -1
    } else {
        let prev = spec_best_unselected(k, sel, n - 1);
        if sel[n - 1] {
            prev
        } else if prev == -1 {
            n - 1
        } else if spec_item_score(k, sel, n - 1) > spec_item_score(k, sel, prev) {
            n - 1
        } else {
            prev
        }
    }
}

/// The index the repair heuristic drops first among the selected ones
/// of the first `n` items: the first index whose profit density against
/// the selection's remaining capacities is minimal, or -1 when none of
/// the first `n` items is selected.
pub open spec fn spec_worst_selected(k: Knapsack, sel: Seq<bool>, n: int) -> int
    decreases n,
{
    if n <= 0 {
        -1
    } else {
        let prev = spec_worst_selected(k, sel, n - 1);
        if !sel[n - 1] {
            prev
        } else if prev == -1 {
            n - 1
        } else if spec_item_score(k, sel, n - 1) < spec_item_score(k, sel, prev) {
            n - 1
        } else {
            prev
        }
    }
}

/// Constraint repair continued from `sel` for at most `fuel` more
/// deselections: while infeasible, drop the lowest-ranked selected item
/// and re-rank against the live capacity state.
pub open spec fn spec_repair_from(k: Knapsack, sel: Seq<bool>, fuel: int) -> Seq<bool>
    decreases fuel,
{
    if k.spec_feasible(sel) || fuel <= 0 {
        sel
    } else {
        let w = spec_worst_selected(k, sel, k.n_items());
        if w < 0 {
            sel
        } else {
            spec_repair_from(k, sel.update(w, false), fuel - 1)
        }
    }
}

/// The selection that repair turns `sel` into; as many deselections as
/// there are selected items always suffice.
pub open spec fn spec_repair(k: Knapsack, sel: Seq<bool>) -> Seq<bool> {
    spec_repair_from(k, sel, count_selected(sel, k.n_items()))
}

/// The greedy construction continued from `sel` for at most `fuel` more
/// additions: while the top-ranked unselected item exists and fits, add
/// it and re-rank.
pub open spec fn spec_greedy_from(k: Knapsack, sel: Seq<bool>, fuel: nat) -> Seq<bool>
    decreases fuel,
{
    if fuel == 0 {
        sel
    } else {
        let b = spec_best_unselected(k, sel, k.n_items());
        if b < 0 {
            sel
        } else if !k.spec_fits(sel, k.items@[b]) {
            sel
        } else {
            spec_greedy_from(k, sel.update(b, true), (fuel - 1) as nat)
        }
    }
}

/// The selection the greedy construction builds, starting from the
/// empty selection; `n_items` additions always suffice.
pub open spec fn spec_greedy(k: Knapsack) -> Seq<bool> {
    spec_greedy_from(k, Seq::new(k.items@.len(), |i: int| false), k.items@.len())
}

impl Knapsack {
    /// Builds an instance from fully-parsed data, validating every
    /// invariant the engine depends on and failing fast (with `None`)
    /// when one does not hold.
    pub fn new(capacity: Vec<u64>, items: Vec<Item>) -> (r: Option<Knapsack>)
        ensures
            r is Some <==> spec_valid_instance(capacity@, items@),
            match r {
                Some(k) => k.capacity@ == capacity@ && k.items@ == items@ && k.wf(),
                None => true,
            },
    {
        let ghost iseq = items@;
        let ghost cseq = capacity@;
        let mut i: usize = 0;
        while i < items.len()
            invariant
                iseq == items@,
                cseq == capacity@,
                i <= iseq.len(),
                forall|j: int|
                    0 <= j < i ==> (#[trigger] iseq[j]).weight@.len() == cseq.len() && iseq[j].id
                        == j + 1,
            decreases iseq.len() - i,
        {
            if items[i].weight.len() != capacity.len() {
                return None;
            }
            if items[i].id != (i as u64) + 1 {
                return None;
            }
            i = i + 1;
        }
        let mut d: usize = 0;
        while d < capacity.len()
            invariant
                cseq == capacity@,
                d <= cseq.len(),
                forall|dd: int| 0 <= dd < d ==> (#[trigger] cseq[dd]) <= i64::MAX,
            decreases cseq.len() - d,
        {
            if capacity[d] > i64::MAX as u64 {
                return None;
            }
            d = d + 1;
        }
        let mut d: usize = 0;
        while d < capacity.len()
            invariant
                iseq == items@,
                cseq == capacity@,
                d <= cseq.len(),
                forall|j: int| 0 <= j < iseq.len() ==> (#[trigger] iseq[j]).weight@.len()
                    == cseq.len(),
                forall|dd: int|
                    0 <= dd < d ==> #[trigger] total_weight(iseq, dd, iseq.len() as int)
                        <= i64::MAX,
            decreases cseq.len() - d,
        {
            let mut acc: u128 = 0;
            let mut i: usize = 0;
            while i < items.len()
                invariant
                    iseq == items@,
                    cseq == capacity@,
                    d < cseq.len(),
                    i <= iseq.len(),
                    forall|j: int| 0 <= j < iseq.len() ==> (#[trigger] iseq[j]).weight@.len()
                        == cseq.len(),
                    acc == total_weight(iseq, d as int, i as int),
                    acc <= i64::MAX,
                decreases iseq.len() - i,
            {
                acc = acc + (items[i].weight[d] as u128);
                if acc > i64::MAX as u128 {
                    proof {
                        lemma_total_weight_mono(iseq, d as int, i + 1, iseq.len() as int);
                    }
                    return None;
                }
                i = i + 1;
            }
            d = d + 1;
        }
        let mut acc: u128 = 0;
        let mut i: usize = 0;
        while i < items.len()
            invariant
                iseq == items@,
                i <= iseq.len(),
                acc == total_value(iseq, i as int),
                acc <= u64::MAX,
            decreases iseq.len() - i,
        {
            acc = acc + (items[i].value as u128);
            if acc > u64::MAX as u128 {
                proof {
                    lemma_total_value_mono(iseq, i + 1, iseq.len() as int);
                }
                return None;
            }
            i = i + 1;
        }
        Some(Knapsack { capacity, items })
    }

    /// For each dimension, the capacity minus the weight of the selected
    /// items; negative entries mean the selection is infeasible there.
    pub fn capacity_left(&self, chromosome: &Chromosome) -> (r: Vec<i64>)
        requires
            self.wf(),
            chromosome.wf_for(*self),
        ensures
            r@.len() == self.dims(),
            forall|d: int|
                0 <= d < self.dims() ==> #[trigger] r@[d] == self.spec_capacity_left(
                    chromosome.items@,
                    d,
                ),
    {
        let ghost items = self.items@;
        let ghost sel = chromosome.items@;
        let mut r: Vec<i64> = Vec::new();
        let mut d: usize = 0;
        while d < self.capacity.len()
            invariant
                self.wf(),
                d <= self.dims(),
                r@.len() == d,
                forall|dd: int| 0 <= dd < d ==> #[trigger] r@[dd] == self.capacity@[dd],
            decreases self.dims() - d,
        {
            r.push(self.capacity[d] as i64);
            d = d + 1;
        }
        let mut i: usize = 0;
        while i < self.items.len()
            invariant
                self.wf(),
                chromosome.wf_for(*self),
                items == self.items@,
                sel == chromosome.items@,
                i <= self.n_items(),
                r@.len() == self.dims(),
                forall|dd: int|
                    0 <= dd < self.dims() ==> #[trigger] r@[dd] == self.capacity@[dd] - sel_weight(
                        items,
                        sel,
                        dd,
                        i as int,
                    ),
            decreases self.n_items() - i,
        {
            if chromosome.items[i] {
                let item = &self.items[i];
                let mut d: usize = 0;
                while d < item.weight.len()
                    invariant
                        self.wf(),
                        items == self.items@,
                        i < self.n_items(),
                        sel[i as int],
                        item == items[i as int],
                        item.weight@.len() == self.dims(),
                        d <= self.dims(),
                        r@.len() == self.dims(),
                        forall|dd: int|
                            0 <= dd < d ==> #[trigger] r@[dd] == self.capacity@[dd] - sel_weight(
                                items,
                                sel,
                                dd,
                                i + 1,
                            ),
                        forall|dd: int|
                            d <= dd < self.dims() ==> #[trigger] r@[dd] == self.capacity@[dd]
                                - sel_weight(items, sel, dd, i as int),
                    decreases self.dims() - d,
                {
                    proof {
                        lemma_sel_weight_bounds(items, sel, d as int, i + 1);
                        lemma_total_weight_mono(items, d as int, i + 1, self.n_items());
                        lemma_item_weight_le_total(items, d as int, i as int, self.n_items());
                        assert(sel_weight(items, sel, d as int, i + 1) == sel_weight(
                            items,
                            sel,
                            d as int,
                            i as int,
                        ) + items[i as int].weight@[d as int]);
                    }
                    r[d] = r[d] - (item.weight[d] as i64);
                    d = d + 1;
                }
            } else {
                proof {
                    assert(forall|dd: int|
                        0 <= dd < self.dims() ==> sel_weight(items, sel, dd, i + 1) == sel_weight(
                            items,
                            sel,
                            dd,
                            i as int,
                        ));
                }
            }
            i = i + 1;
        }
        r
    }

    /// True exactly when the chromosome's selection respects every
    /// capacity dimension.
    pub fn is_chromosome_feasible(&self, chromosome: &Chromosome) -> (r: bool)
        requires
            self.wf(),
            chromosome.wf_for(*self),
        ensures
            r == self.spec_feasible(chromosome.items@),
    {
        let left = self.capacity_left(chromosome);
        let mut d: usize = 0;
        while d < left.len()
            invariant
                left@.len() == self.dims(),
                d <= self.dims(),
                forall|dd: int|
                    0 <= dd < self.dims() ==> #[trigger] left@[dd] == self.spec_capacity_left(
                        chromosome.items@,
                        dd,
                    ),
                forall|dd: int|
                    0 <= dd < d ==> self.spec_capacity_left(chromosome.items@, dd) >= 0,
            decreases left@.len() - d,
        {
            if left[d] < 0 {
                return false;
            }
            d = d + 1;
        }
        true
    }

    /// True exactly when adding `item` on top of the current selection
    /// would leave every dimension's remaining capacity non-negative.
    pub fn will_item_fit(&self, chromosome: &Chromosome, item: &Item) -> (r: bool)
        requires
            self.wf(),
            chromosome.wf_for(*self),
            item.weight@.len() == self.dims(),
        ensures
            r == self.spec_fits(chromosome.items@, *item),
    {
        let left = self.capacity_left(chromosome);
        let mut d: usize = 0;
        while d < left.len()
            invariant
                self.wf(),
                chromosome.wf_for(*self),
                left@.len() == self.dims(),
                item.weight@.len() == self.dims(),
                d <= self.dims(),
                forall|dd: int|
                    0 <= dd < self.dims() ==> #[trigger] left@[dd] == self.spec_capacity_left(
                        chromosome.items@,
                        dd,
                    ),
                forall|dd: int|
                    0 <= dd < d ==> self.spec_capacity_left(chromosome.items@, dd) >= (
                    #[trigger] item.weight@[dd]),
            decreases left@.len() - d,
        {
            if item.weight[d] > i64::MAX as u64 || left[d] < item.weight[d] as i64 {
                proof {
                    lemma_sel_weight_bounds(
                        self.items@,
                        chromosome.items@,
                        d as int,
                        self.n_items(),
                    );
                    assert(self.spec_capacity_left(chromosome.items@, d as int)
                        < item.weight@[d as int]);
                }
                return false;
            }
            d = d + 1;
        }
        true
    }

    /// Total value of the items the chromosome selects.
    pub fn chromosome_total_value(&self, chromosome: &Chromosome) -> (r: u64)
        requires
            self.wf(),
            chromosome.wf_for(*self),
        ensures
            r == sel_value(self.items@, chromosome.items@, self.n_items()),
    {
        let ghost items = self.items@;
        let ghost sel = chromosome.items@;
        let mut acc: u64 = 0;
        let mut i: usize = 0;
        while i < self.items.len()
            invariant
                self.wf(),
                chromosome.wf_for(*self),
                items == self.items@,
                sel == chromosome.items@,
                i <= self.n_items(),
                acc == sel_value(items, sel, i as int),
            decreases self.n_items() - i,
        {
            proof {
                lemma_sel_value_bounds(items, sel, i + 1);
                lemma_total_value_mono(items, i + 1, self.n_items());
            }
            if chromosome.items[i] {
                acc = acc + self.items[i].value;
            }
            i = i + 1;
        }
        acc
    }

    /// The fixed-point profit density of `item` against the remaining
    /// capacities in `left`; see `spec_score` for the exact meaning.
    pub fn profit_score(&self, item: &Item, left: &Vec<i64>) -> (r: i128)
        requires
            item.weight@.len() == left@.len(),
            forall|d: int| 0 <= d < item.weight@.len() ==> (#[trigger] item.weight@[d]) <= i64::MAX,
        ensures
            r == spec_score(item.value, item.weight@, left@),
    {
        let ghost w = item.weight@;
        let ghost lv = left@;
        let mut s: i128 = 0;
        let mut zero_div = false;
        let mut d: usize = 0;
        while d < item.weight.len()
            invariant
                item.weight@ == w,
                left@ == lv,
                w.len() == lv.len(),
                forall|dd: int| 0 <= dd < w.len() ==> (#[trigger] w[dd]) <= i64::MAX,
                d <= w.len(),
                s == spec_sum_terms(w, lv, d as int),
                zero_div == spec_zero_div(w, lv, d as int),
            decreases w.len() - d,
        {
            proof {
                lemma_sum_terms_bounded(w, lv, d as int);
            }
            let wi = item.weight[d];
            let l = left[d];
            if l == 0 {
                if wi > 0 {
                    zero_div = true;
                }
                proof {
                    lemma_sum_terms_bounded(w, lv, d + 1);
                    assert(spec_term(w[d as int], lv[d as int]) == 0);
                }
            } else {
                let labs: u64 = if l < 0 {
                    (-(l as i128)) as u64
                } else {
                    l as u64
                };
                let num: u128 = wi as u128 * TERM_SCALE;
                proof {
                    lemma_div_le_dividend(num as int, labs as int);
                }
                let mag: u128 = num / (labs as u128);
                let term: i128 = if l > 0 {
                    mag as i128
                } else {
                    -(mag as i128)
                };
                assert(term == spec_term(w[d as int], lv[d as int]));
                let sum: i128 = s + term;
                s = if sum > SUM_CLAMP {
                    SUM_CLAMP
                } else if sum < -SUM_CLAMP {
                    -SUM_CLAMP
                } else {
                    sum
                };
                assert(s == spec_sum_terms(w, lv, d + 1));
                assert(spec_zero_div(w, lv, d + 1) == spec_zero_div(w, lv, d as int));
            }
            d = d + 1;
        }
        if zero_div {
            0
        } else if s == 0 {
            if item.value > 0 {
                i128::MAX
            } else {
                0
            }
        } else {
            let num: u128 = item.value as u128 * VALUE_SCALE;
            if s > 0 {
                proof {
                    lemma_div_le_dividend(num as int, s as int);
                }
                (num / (s as u128)) as i128
            } else {
                proof {
                    lemma_sum_terms_bounded(w, lv, w.len() as int);
                    lemma_div_le_dividend(num as int, -(s as int));
                }
                -((num / ((-s) as u128)) as i128)
            }
        }
    }

    /// Index of the lowest-ranked selected item: the first selected item
    /// whose profit density against `left` is minimal.
    fn pick_worst_selected(&self, chromosome: &Chromosome, left: &Vec<i64>) -> (r: usize)
        requires
            self.wf(),
            chromosome.wf_for(*self),
            left@ == spec_left_vec(*self, chromosome.items@),
            exists|j: int| 0 <= j < chromosome.items@.len() && chromosome.items@[j],
        ensures
            r < chromosome.items@.len(),
            chromosome.items@[r as int],
            r == spec_worst_selected(*self, chromosome.items@, self.n_items()),
    {
        let ghost sel = chromosome.items@;
        let mut best: usize = 0;
        let mut found = false;
        let mut best_score: i128 = 0;
        let mut i: usize = 0;
        while i < self.items.len()
            invariant
                self.wf(),
                chromosome.wf_for(*self),
                sel == chromosome.items@,
                left@ == spec_left_vec(*self, sel),
                i <= self.n_items(),
                found == exists|j: int| 0 <= j < i && sel[j],
                found ==> best < self.n_items() && sel[best as int],
                (if found {
                    best as int
                } else {
                    -1
                }) == spec_worst_selected(*self, sel, i as int),
                found ==> best_score == spec_item_score(*self, sel, best as int),
            decreases self.n_items() - i,
        {
            if chromosome.items[i] {
                proof {
                    assert forall|dd: int|
                        0 <= dd < self.items@[i as int].weight@.len() implies (
                    #[trigger] self.items@[i as int].weight@[dd]) <= i64::MAX by {
                        lemma_item_weight_le_total(self.items@, dd, i as int, self.n_items());
                    }
                }
                let score = self.profit_score(&self.items[i], left);
                assert(score == spec_item_score(*self, sel, i as int));
                if !found || score < best_score {
                    best = i;
                    best_score = score;
                    found = true;
                }
            }
            i = i + 1;
        }
        best
    }

    /// Index of the highest-ranked unselected item, when one exists: the
    /// first unselected item whose profit density against `left` is
    /// maximal.
    fn pick_best_unselected(&self, chromosome: &Chromosome, left: &Vec<i64>) -> (r: (bool, usize))
        requires
            self.wf(),
            chromosome.wf_for(*self),
            left@ == spec_left_vec(*self, chromosome.items@),
        ensures
            r.0 == exists|j: int| 0 <= j < chromosome.items@.len() && !chromosome.items@[j],
            r.0 ==> r.1 < chromosome.items@.len() && !chromosome.items@[r.1 as int],
            (if r.0 {
                r.1 as int
            } else {
                -1
            }) == spec_best_unselected(*self, chromosome.items@, self.n_items()),
    {
        let ghost sel = chromosome.items@;
        let mut best: usize = 0;
        let mut found = false;
        let mut best_score: i128 = 0;
        let mut i: usize = 0;
        while i < self.items.len()
            invariant
                self.wf(),
                chromosome.wf_for(*self),
                sel == chromosome.items@,
                left@ == spec_left_vec(*self, sel),
                i <= self.n_items(),
                found == exists|j: int| 0 <= j < i && !sel[j],
                found ==> best < self.n_items() && !sel[best as int],
                (if found {
                    best as int
                } else {
                    -1
                }) == spec_best_unselected(*self, sel, i as int),
                found ==> best_score == spec_item_score(*self, sel, best as int),
            decreases self.n_items() - i,
        {
            if !chromosome.items[i] {
                proof {
                    assert forall|dd: int|
                        0 <= dd < self.items@[i as int].weight@.len() implies (
                    #[trigger] self.items@[i as int].weight@[dd]) <= i64::MAX by {
                        lemma_item_weight_le_total(self.items@, dd, i as int, self.n_items());
                    }
                }
                let score = self.profit_score(&self.items[i], left);
                assert(score == spec_item_score(*self, sel, i as int));
                if !found || score > best_score {
                    best = i;
                    best_score = score;
                    found = true;
                }
            }
            i = i + 1;
        }
        (found, best)
    }

    /// Constraint repair: while the chromosome is infeasible, deselect
    /// the lowest-ranked currently selected item, re-ranking against the
    /// live capacity state each round. The result is feasible, never
    /// selects an item the input did not select, and an already-feasible
    /// chromosome comes back unchanged.
    pub fn repair_chromosome(&self, chromosome: &mut Chromosome)
        requires
            self.wf(),
            old(chromosome).wf_for(*self),
        ensures
            final(chromosome).wf_for(*self),
            self.spec_feasible(final(chromosome).items@),
            forall|i: int|
                0 <= i < final(chromosome).items@.len()
                    ==> ((#[trigger] final(chromosome).items@[i]) ==> old(chromosome).items@[i]),
            self.spec_feasible(old(chromosome).items@)
                ==> final(chromosome).items@ == old(chromosome).items@,
            final(chromosome).items@ == spec_repair(*self, old(chromosome).items@),
    {
        loop
            invariant
                self.wf(),
                chromosome.wf_for(*self),
                forall|i: int|
                    0 <= i < chromosome.items@.len() ==> ((#[trigger] chromosome.items@[i])
                        ==> old(chromosome).items@[i]),
                self.spec_feasible(old(chromosome).items@)
                    ==> chromosome.items@ == old(chromosome).items@,
                spec_repair_from(
                    *self,
                    chromosome.items@,
                    count_selected(chromosome.items@, self.n_items()),
                ) == spec_repair(*self, old(chromosome).items@),
            ensures
                self.spec_feasible(chromosome.items@),
                chromosome.items@ == spec_repair(*self, old(chromosome).items@),
            decreases count_selected(chromosome.items@, self.n_items()),
        {
            proof {
                lemma_count_selected_range(chromosome.items@, self.n_items());
            }
            if self.is_chromosome_feasible(chromosome) {
                break;
            }
            let ghost pre = chromosome.items@;
            let ghost fuel = count_selected(pre, self.n_items());
            proof {
                // An infeasible selection has at least one selected item:
                // with none selected, every dimension keeps its full
                // capacity and the selection would be feasible.
                if count_selected(pre, self.n_items()) == 0 {
                    assert forall|dd: int| 0 <= dd < self.dims() implies self.spec_capacity_left(
                        pre,
                        dd,
                    ) >= 0 by {
                        lemma_empty_selection(self.items@, pre, dd, self.n_items());
                    }
                    assert(false);
                }
                lemma_count_selected_range(pre, self.n_items());
            }
            let left = self.capacity_left(chromosome);
            proof {
                assert forall|dd: int| 0 <= dd < self.dims() implies left@[dd] == spec_left_vec(
                    *self,
                    pre,
                )[dd] by {
                }
                assert(left@ =~= spec_left_vec(*self, pre));
            }
            let worst = self.pick_worst_selected(chromosome, &left);
            proof {
                assert(fuel > 0);
                assert(spec_repair_from(*self, pre, fuel) == spec_repair_from(
                    *self,
                    pre.update(worst as int, false),
                    fuel - 1,
                ));
            }
            chromosome.items[worst] = false;
            proof {
                lemma_count_selected_update(pre, self.n_items(), worst as int, false);
                if self.spec_feasible(old(chromosome).items@) {
                    assert(pre == old(chromosome).items@);
                    assert(false);
                }
            }
        }
    }

    /// Greedy seeding: starting from the empty selection, repeatedly
    /// re-rank all unselected items against the current partial
    /// selection and add the top-ranked one while it fits; stop at the
    /// first top-ranked item that does not fit. The result is feasible.
    pub fn greedy_chromosome(&self) -> (c: Chromosome)
        requires
            self.wf(),
        ensures
            c.wf_for(*self),
            self.spec_feasible(c.items@),
            c.items@ == spec_greedy(*self),
    {
        let mut c = Chromosome::new(self);
        proof {
            lemma_unselected_feasible(*self, c.items@);
            assert(c.items@ =~= Seq::new(self.items@.len(), |i: int| false));
            lemma_count_selected_range(c.items@, self.n_items());
        }
        loop
            invariant
                self.wf(),
                c.wf_for(*self),
                self.spec_feasible(c.items@),
                0 <= count_selected(c.items@, self.n_items()) <= self.n_items(),
                spec_greedy_from(
                    *self,
                    c.items@,
                    (self.n_items() - count_selected(c.items@, self.n_items())) as nat,
                ) == spec_greedy(*self),
            ensures
                c.items@ == spec_greedy(*self),
            decreases self.n_items() - count_selected(c.items@, self.n_items()),
        {
            proof {
                lemma_count_selected_range(c.items@, self.n_items());
            }
            let ghost fuel = (self.n_items() - count_selected(c.items@, self.n_items())) as nat;
            let left = self.capacity_left(&c);
            proof {
                assert forall|dd: int| 0 <= dd < self.dims() implies left@[dd] == spec_left_vec(
                    *self,
                    c.items@,
                )[dd] by {
                }
                assert(left@ =~= spec_left_vec(*self, c.items@));
            }
            let (found, best) = self.pick_best_unselected(&c, &left);
            if !found {
                proof {
                    assert(spec_greedy_from(*self, c.items@, fuel) == c.items@);
                }
                break;
            }
            if !self.will_item_fit(&c, &self.items[best]) {
                proof {
                    lemma_count_selected_lt(c.items@, self.n_items(), best as int);
                    assert(fuel > 0);
                    assert(spec_greedy_from(*self, c.items@, fuel) == c.items@);
                }
                break;
            }
            let ghost pre = c.items@;
            proof {
                lemma_count_selected_lt(pre, self.n_items(), best as int);
                assert(fuel > 0);
                assert(spec_greedy_from(*self, pre, fuel) == spec_greedy_from(
                    *self,
                    pre.update(best as int, true),
                    (fuel - 1) as nat,
                ));
            }
            c.items[best] = true;
            proof {
                lemma_count_selected_update(pre, self.n_items(), best as int, true);
                assert forall|dd: int| 0 <= dd < self.dims() implies self.spec_capacity_left(
                    c.items@,
                    dd,
                ) >= 0 by {
                    lemma_sel_weight_update(
                        self.items@,
                        pre,
                        dd,
                        self.n_items(),
                        best as int,
                        true,
                    );
                }
            }
        }
        c
    }

    /// The initial population: the greedy candidate in slot zero,
    /// followed by independently generated random feasible candidates.
    fn generate_population(
        &self,
        random_population_size: usize,
        rng: &mut rand::rngs::StdRng,
    ) -> (p: Vec<Chromosome>)
        requires
            self.wf(),
            self.n_items() >= 1,
            random_population_size >= 1,
        ensures
            p@.len() == random_population_size,
            forall|j: int|
                0 <= j < p@.len() ==> (#[trigger] p@[j]).wf_for(*self) && self.spec_feasible(
                    p@[j].items@,
                ),
            p@[0].items@ == spec_greedy(*self),
    {
        let mut population: Vec<Chromosome> = Vec::new();
        population.push(self.greedy_chromosome());
        let mut i: usize = 1;
        while i < random_population_size
            invariant
                self.wf(),
                self.n_items() >= 1,
                1 <= i <= random_population_size,
                population@.len() == i,
                forall|j: int|
                    0 <= j < population@.len() ==> (#[trigger] population@[j]).wf_for(*self)
                        && self.spec_feasible(population@[j].items@),
                population@[0].items@ == spec_greedy(*self),
            decreases random_population_size - i,
        {
            let mut random_chromosome = Chromosome::new(self);
            proof {
                lemma_unselected_feasible(*self, random_chromosome.items@);
            }
            random_chromosome.generate(self, rng);
            population.push(random_chromosome);
            i = i + 1;
        }
        population
    }

    /// Tournament selection of one parent: sample `TOURNAMENT_SIZE`
    /// population members uniformly at random (with replacement) and
    /// return the index of the fittest seen, first seen winning ties.
    fn tournament_pick(&self, population: &Vec<Chromosome>, rng: &mut rand::rngs::StdRng) -> (r:
        usize)
        requires
            self.wf(),
            population@.len() >= 1,
            forall|j: int| 0 <= j < population@.len() ==> (#[trigger] population@[j]).wf_for(*self),
        ensures
            r < population@.len(),
    {
        let mut best = rand_below(rng, population.len());
        let mut best_fit = population[best].fitness(self);
        let mut t: usize = 1;
        while t < TOURNAMENT_SIZE
            invariant
                self.wf(),
                population@.len() >= 1,
                forall|j: int|
                    0 <= j < population@.len() ==> (#[trigger] population@[j]).wf_for(*self),
                best < population@.len(),
            decreases TOURNAMENT_SIZE - t,
        {
            let idx = rand_below(rng, population.len());
            let fit = population[idx].fitness(self);
            if fit > best_fit {
                best = idx;
                best_fit = fit;
            }
            t = t + 1;
        }
        best
    }

    /// Index of the fittest population member, first seen winning ties.
    fn pick_fittest(&self, population: &Vec<Chromosome>) -> (r: usize)
        requires
            self.wf(),
            population@.len() >= 1,
            forall|j: int| 0 <= j < population@.len() ==> (#[trigger] population@[j]).wf_for(*self),
        ensures
            r < population@.len(),
            forall|j: int|
                0 <= j < population@.len() ==> spec_fitness(*self, (#[trigger] population@[j]).items@)
                    <= spec_fitness(*self, population@[r as int].items@),
    {
        let mut best: usize = 0;
        let mut best_fit = population[0].fitness(self);
        let mut i: usize = 1;
        while i < population.len()
            invariant
                self.wf(),
                population@.len() >= 1,
                1 <= i <= population@.len(),
                forall|j: int|
                    0 <= j < population@.len() ==> (#[trigger] population@[j]).wf_for(*self),
                best < population@.len(),
                best_fit == spec_fitness(*self, population@[best as int].items@),
                forall|j: int|
                    0 <= j < i ==> spec_fitness(*self, (#[trigger] population@[j]).items@)
                        <= best_fit,
            decreases population@.len() - i,
        {
            let fit = population[i].fitness(self);
            if fit > best_fit {
                best = i;
                best_fit = fit;
            }
            i = i + 1;
        }
        best
    }

    /// Index of the weakest population member, first seen winning ties.
    fn pick_weakest(&self, population: &Vec<Chromosome>) -> (r: usize)
        requires
            self.wf(),
            population@.len() >= 1,
            forall|j: int| 0 <= j < population@.len() ==> (#[trigger] population@[j]).wf_for(*self),
        ensures
            r < population@.len(),
    {
        let mut worst: usize = 0;
        let mut worst_fit = population[0].fitness(self);
        let mut i: usize = 1;
        while i < population.len()
            invariant
                self.wf(),
                population@.len() >= 1,
                forall|j: int|
                    0 <= j < population@.len() ==> (#[trigger] population@[j]).wf_for(*self),
                worst < population@.len(),
            decreases population@.len() - i,
        {
            let fit = population[i].fitness(self);
            if fit < worst_fit {
                worst = i;
                worst_fit = fit;
            }
            i = i + 1;
        }
        worst
    }

    /// One generation of the evolution loop: select parents by
    /// tournament, produce offspring by crossover then mutation (which
    /// repairs), replace the weakest members with the offspring, and
    /// advance the best-ever candidate if the fittest member's total
    /// value exceeds it. The population keeps its size, every member
    /// stays feasible, the best-ever total value never decreases, the
    /// best-ever candidate ends at least as valuable as every member,
    /// and it changes only to a copy of a member.
    pub fn evolve_step(
        &self,
        population: &mut Vec<Chromosome>,
        selection_count: usize,
        best: &mut Chromosome,
        rng: &mut rand::rngs::StdRng,
    )
        requires
            self.wf(),
            self.n_items() >= 1,
            old(population)@.len() >= 2,
            1 <= selection_count <= old(population)@.len(),
            forall|j: int|
                0 <= j < old(population)@.len() ==> (#[trigger] old(population)@[j]).wf_for(*self)
                    && self.spec_feasible(old(population)@[j].items@),
            old(best).wf_for(*self),
            self.spec_feasible(old(best).items@),
        ensures
            final(population)@.len() == old(population)@.len(),
            forall|j: int|
                0 <= j < final(population)@.len() ==> (#[trigger] final(population)@[j]).wf_for(
                    *self,
                ) && self.spec_feasible(final(population)@[j].items@),
            final(best).wf_for(*self),
            self.spec_feasible(final(best).items@),
            sel_value(self.items@, final(best).items@, self.n_items()) >= sel_value(
                self.items@,
                old(best).items@,
                self.n_items(),
            ),
            forall|j: int|
                0 <= j < final(population)@.len() ==> sel_value(
                    self.items@,
                    (#[trigger] final(population)@[j]).items@,
                    self.n_items(),
                ) <= sel_value(self.items@, final(best).items@, self.n_items()),
            final(best).items@ == old(best).items@ || exists|j: int|
                0 <= j < final(population)@.len() && final(best).items@ == (
                #[trigger] final(population)@[j]).items@,
    {
        let ghost pop_len = population@.len();
        let mut winners: Vec<usize> = Vec::new();
        let mut s: usize = 0;
        while s < selection_count
            invariant
                self.wf(),
                population@.len() == pop_len,
                pop_len >= 2,
                forall|j: int|
                    0 <= j < population@.len() ==> (#[trigger] population@[j]).wf_for(*self),
                winners@.len() == s,
                forall|j: int| 0 <= j < winners@.len() ==> (#[trigger] winners@[j]) < pop_len,
            decreases selection_count - s,
        {
            let w = self.tournament_pick(population, rng);
            winners.push(w);
            s = s + 1;
        }
        let mut children: Vec<Chromosome> = Vec::new();
        let wl = winners.len();
        let pairs = wl / 2;
        proof {
            vstd::arithmetic::div_mod::lemma_fundamental_div_mod(wl as int, 2);
            vstd::arithmetic::div_mod::lemma_mod_bound(wl as int, 2);
            assert(2 * pairs <= wl);
        }
        let mut t: usize = 0;
        while t < pairs
            invariant
                self.wf(),
                self.n_items() >= 1,
                population@.len() == pop_len,
                wl == winners@.len(),
                2 * pairs <= wl,
                t <= pairs,
                forall|j: int|
                    0 <= j < population@.len() ==> (#[trigger] population@[j]).wf_for(*self),
                forall|j: int| 0 <= j < winners@.len() ==> (#[trigger] winners@[j]) < pop_len,
                forall|j: int|
                    0 <= j < children@.len() ==> (#[trigger] children@[j]).wf_for(*self)
                        && self.spec_feasible(children@[j].items@),
            decreases pairs - t,
        {
            let a = winners[2 * t];
            let b = winners[2 * t + 1];
            let child = population[a].crossover(&population[b], rng);
            let child = child.mutate(self, rng);
            children.push(child);
            t = t + 1;
        }
        loop
            invariant
                self.wf(),
                population@.len() == pop_len,
                pop_len >= 2,
                forall|j: int|
                    0 <= j < population@.len() ==> (#[trigger] population@[j]).wf_for(*self)
                        && self.spec_feasible(population@[j].items@),
                forall|j: int|
                    0 <= j < children@.len() ==> (#[trigger] children@[j]).wf_for(*self)
                        && self.spec_feasible(children@[j].items@),
            decreases children@.len(),
        {
            let child = match children.pop() {
                Some(c) => c,
                None => { break },
            };
            let w = self.pick_weakest(population);
            population[w] = child;
        }
        let fittest = self.pick_fittest(population);
        proof {
            // Every member is feasible, so its fitness is its value sum
            // and the fittest member's value bounds them all.
            assert forall|j: int| 0 <= j < population@.len() implies sel_value(
                self.items@,
                (#[trigger] population@[j]).items@,
                self.n_items(),
            ) <= sel_value(self.items@, population@[fittest as int].items@, self.n_items()) by {
                assert(spec_fitness(*self, population@[j].items@) <= spec_fitness(
                    *self,
                    population@[fittest as int].items@,
                ));
            }
        }
        let representative_value = self.chromosome_total_value(&population[fittest]);
        let best_value = self.chromosome_total_value(best);
        if best_value < representative_value {
            *best = population[fittest].duplicate();
            assert(best.items@ == population@[fittest as int].items@);
        }
    }

    /// The full search: seed the population with the greedy candidate
    /// and random feasible candidates, evolve it for exactly
    /// `iterations_count` generations while tracking the best-ever
    /// candidate (the greedy one at the start), and derive the summary
    /// of the best candidate found. The summary reports a feasible
    /// selection: its exact value sum, its identifiers in ascending
    /// order, per-dimension utilization never above one hundred
    /// percent, and the iteration count.
    pub fn run_ga(
        &self,
        random_population_size: usize,
        selection_count: usize,
        iterations_count: u64,
        rng: &mut rand::rngs::StdRng,
    ) -> (r: Statistics)
        requires
            self.wf(),
            self.n_items() >= 1,
            random_population_size >= 2,
            1 <= selection_count <= random_population_size,
        ensures
            r.iterations == iterations_count,
            r.duration >= 0,
            exists|sel: Seq<bool>| valid_summary(*self, sel, r),
            r.total_profit >= sel_value(self.items@, spec_greedy(*self), self.n_items()),
            iterations_count == 0 ==> valid_summary(*self, spec_greedy(*self), r),
    {
        let start = instant_now();
        let mut population = self.generate_population(random_population_size, rng);
        // The greedy candidate is constructed once: it sits in slot
        // zero, and the best-ever slot starts as a copy of it.
        let mut best = population[0].duplicate();
        let mut it: u64 = 0;
        while it < iterations_count
            invariant
                self.wf(),
                self.n_items() >= 1,
                random_population_size >= 2,
                1 <= selection_count <= random_population_size,
                population@.len() == random_population_size,
                forall|j: int|
                    0 <= j < population@.len() ==> (#[trigger] population@[j]).wf_for(*self)
                        && self.spec_feasible(population@[j].items@),
                best.wf_for(*self),
                self.spec_feasible(best.items@),
                sel_value(self.items@, best.items@, self.n_items()) >= sel_value(
                    self.items@,
                    spec_greedy(*self),
                    self.n_items(),
                ),
                iterations_count == 0 ==> best.items@ == spec_greedy(*self),
                it <= iterations_count,
            decreases iterations_count - it,
        {
            self.evolve_step(&mut population, selection_count, &mut best, rng);
            it = it + 1;
        }
        let elapsed = instant_elapsed(&start);
        let nanos = duration_as_nanos(&elapsed);
        let duration: i64 = if nanos > i64::MAX as u128 {
            i64::MAX
        } else {
            nanos as i64
        };
        match collect(self, &best, iterations_count, duration) {
            Ok(s) => s,
            Err(_) => vstd::pervasive::unreached(),
        }
    }
}

} // verus!
