use vstd::prelude::*;

use crate::chromosome::Chromosome;
use crate::item::Item;
use crate::knapsack::Knapsack;
use crate::knapsack::lemma_item_weight_le_total;
use crate::knapsack::lemma_sel_value_bounds;
use crate::knapsack::lemma_sel_weight_bounds;
use crate::knapsack::lemma_total_value_mono;
use crate::knapsack::lemma_total_weight_mono;
use crate::knapsack::sel_value;
use crate::knapsack::sel_weight;

verus! {

/// The reportable outcome of a search: the selected item identifiers in
/// ascending order, their total value, the per-dimension utilization in
/// basis points (hundredths of a percent, 10000 meaning a full
/// dimension), the number of iterations executed, and the elapsed wall
/// time in nanoseconds.
#[derive(Debug)]
pub struct Statistics {
    pub total_profit: u64,
    pub picked_items: Vec<u64>,
    pub utilization: Vec<u64>,
    pub iterations: u64,
    pub duration: i64,
}

/// The fatal internal-consistency diagnostic: a finished candidate
/// exceeded a capacity. It carries the capacity vector and the raw
/// per-dimension consumption of the offending selection.
#[derive(Debug)]
pub struct CapacityViolation {
    pub capacity: Vec<u64>,
    pub utilization: Vec<u64>,
}

/// The identifiers of the selected ones among the first `n` items, in
/// the order the items stand in.
pub open spec fn spec_picked(items: Seq<Item>, sel: Seq<bool>, n: int) -> Seq<u64>
    decreases n,
{
    if n <= 0 {
        Seq::empty()
    } else if sel[n - 1] {
        spec_picked(items, sel, n - 1).push(items[n - 1].id)
    } else {
        spec_picked(items, sel, n - 1)
    }
}

/// Utilization of one dimension in basis points; an unused zero-capacity
/// dimension counts as empty.
pub open spec fn spec_util_bp(used: int, cap: int) -> int {
    if cap == 0 {
        0
    } else {
        used * 10000 / cap
    }
}

/// What a correct summary of the selection `sel` states: the selection
/// is feasible, the profit is its value sum, the picked identifiers are
/// exactly the selected ones, and every dimension's utilization is its
/// consumption in basis points, never above one hundred percent.
pub open spec fn valid_summary(k: Knapsack, sel: Seq<bool>, s: Statistics) -> bool {
    &&& sel.len() == k.n_items()
    &&& k.spec_feasible(sel)
    &&& s.total_profit == sel_value(k.items@, sel, k.n_items())
    &&& s.picked_items@ == spec_picked(k.items@, sel, k.n_items())
    &&& s.utilization@.len() == k.dims()
    &&& forall|d: int|
        0 <= d < k.dims() ==> (#[trigger] s.utilization@[d]) == spec_util_bp(
            sel_weight(k.items@, sel, d, k.n_items()),
            k.capacity@[d] as int,
        )
    &&& forall|d: int| 0 <= d < k.dims() ==> (#[trigger] s.utilization@[d]) <= 10000
    &&& forall|j1: int, j2: int|
        0 <= j1 < j2 < s.picked_items@.len() ==> s.picked_items@[j1] < s.picked_items@[j2]
}

/// With 1-based identifiers in item order, the picked identifiers are
/// between one and `n` and strictly ascending.
pub proof fn lemma_spec_picked_sorted(items: Seq<Item>, sel: Seq<bool>, n: int)
    requires
        forall|i: int| 0 <= i < n ==> (#[trigger] items[i]).id == i + 1,
    ensures
        forall|j: int|
            0 <= j < spec_picked(items, sel, n).len() ==> 1 <= (#[trigger] spec_picked(
                items,
                sel,
                n,
            )[j]) <= n,
        forall|j1: int, j2: int|
            0 <= j1 < j2 < spec_picked(items, sel, n).len() ==> spec_picked(items, sel, n)[j1]
                < spec_picked(items, sel, n)[j2],
    decreases n,
{
    if n > 0 {
        lemma_spec_picked_sorted(items, sel, n - 1);
        let prev = spec_picked(items, sel, n - 1);
        let cur = spec_picked(items, sel, n);
        if sel[n - 1] {
            assert(cur == prev.push(items[n - 1].id));
            assert forall|j: int| 0 <= j < cur.len() implies 1 <= (#[trigger] cur[j]) <= n by {
                if j < prev.len() {
                    assert(cur[j] == prev[j]);
                } else {
                    assert(cur[j] == items[n - 1].id);
                }
            }
            assert forall|j1: int, j2: int| 0 <= j1 < j2 < cur.len() implies cur[j1] < cur[j2] by {
                assert(cur[j1] == prev[j1]);
                if j2 < prev.len() {
                    assert(cur[j2] == prev[j2]);
                } else {
                    assert(cur[j2] == items[n - 1].id);
                    assert(prev[j1] <= n - 1);
                }
            }
        }
    }
}

impl Statistics {
    /// An empty record: no items, no profit, nothing run yet.
    pub fn new() -> (s: Statistics)
        ensures
            s.total_profit == 0,
            s.picked_items@.len() == 0,
            s.utilization@.len() == 0,
            s.iterations == 0,
            s.duration == 0,
    {
        Statistics {
            total_profit: 0,
            picked_items: Vec::new(),
            utilization: Vec::new(),
            iterations: 0,
            duration: 0,
        }
    }
}

/// An element-wise copy of a vector of integers.
fn copy_u64_vec(v: &Vec<u64>) -> (r: Vec<u64>)
    ensures
        r@ == v@,
{
    let mut r: Vec<u64> = Vec::new();
    let mut i: usize = 0;
    while i < v.len()
        invariant
            i <= v@.len(),
            r@ == v@.subrange(0, i as int),
        decreases v@.len() - i,
    {
        r.push(v[i]);
        i = i + 1;
    }
    assert(v@.subrange(0, v@.len() as int) == v@);
    r
}

/// Derives the reportable summary from a finished candidate, checking
/// the engine's feasibility contract on the way: a selection that
/// exceeds any capacity dimension comes back as the fatal
/// `CapacityViolation` diagnostic instead of a silent over-full report.
pub fn collect(
    knapsack: &Knapsack,
    chromosome: &Chromosome,
    iterations: u64,
    duration: i64,
) -> (r: Result<Statistics, CapacityViolation>)
    requires
        knapsack.wf(),
        chromosome.wf_for(*knapsack),
    ensures
        r is Ok <==> knapsack.spec_feasible(chromosome.items@),
        match r {
            Ok(s) => valid_summary(*knapsack, chromosome.items@, s) && s.iterations == iterations
                && s.duration == duration,
            Err(v) => v.capacity@ == knapsack.capacity@ && v.utilization@.len() == knapsack.dims()
                && forall|d: int|
                0 <= d < knapsack.dims() ==> (#[trigger] v.utilization@[d]) == sel_weight(
                    knapsack.items@,
                    chromosome.items@,
                    d,
                    knapsack.n_items(),
                ),
        },
{
    let ghost items = knapsack.items@;
    let ghost sel = chromosome.items@;
    // Raw per-dimension consumption of the selection.
    let mut used: Vec<u64> = Vec::new();
    let mut d: usize = 0;
    while d < knapsack.capacity.len()
        invariant
            d <= knapsack.dims(),
            used@.len() == d,
            forall|dd: int| 0 <= dd < d ==> (#[trigger] used@[dd]) == 0,
        decreases knapsack.dims() - d,
    {
        used.push(0);
        d = d + 1;
    }
    let mut i: usize = 0;
    while i < knapsack.items.len()
        invariant
            knapsack.wf(),
            chromosome.wf_for(*knapsack),
            items == knapsack.items@,
            sel == chromosome.items@,
            i <= knapsack.n_items(),
            used@.len() == knapsack.dims(),
            forall|dd: int|
                0 <= dd < knapsack.dims() ==> (#[trigger] used@[dd]) == sel_weight(
                    items,
                    sel,
                    dd,
                    i as int,
                ),
        decreases knapsack.n_items() - i,
    {
        if chromosome.items[i] {
            let item = &knapsack.items[i];
            let mut d: usize = 0;
            while d < item.weight.len()
                invariant
                    knapsack.wf(),
                    items == knapsack.items@,
                    i < knapsack.n_items(),
                    sel[i as int],
                    item == items[i as int],
                    item.weight@.len() == knapsack.dims(),
                    d <= knapsack.dims(),
                    used@.len() == knapsack.dims(),
                    forall|dd: int|
                        0 <= dd < d ==> (#[trigger] used@[dd]) == sel_weight(items, sel, dd, i + 1),
                    forall|dd: int|
                        d <= dd < knapsack.dims() ==> (#[trigger] used@[dd]) == sel_weight(
                            items,
                            sel,
                            dd,
                            i as int,
                        ),
                decreases knapsack.dims() - d,
            {
                proof {
                    lemma_sel_weight_bounds(items, sel, d as int, i + 1);
                    lemma_sel_weight_bounds(items, sel, d as int, i as int);
                    lemma_total_weight_mono(items, d as int, i + 1, knapsack.n_items());
                    lemma_item_weight_le_total(items, d as int, i as int, knapsack.n_items());
                }
                used[d] = used[d] + item.weight[d];
                d = d + 1;
            }
        } else {
            proof {
                assert(forall|dd: int|
                    0 <= dd < knapsack.dims() ==> sel_weight(items, sel, dd, i + 1) == sel_weight(
                        items,
                        sel,
                        dd,
                        i as int,
                    ));
            }
        }
        i = i + 1;
    }
    // The engine's invariant check: no dimension may be over-full.
    let mut violated = false;
    let mut d: usize = 0;
    while d < knapsack.capacity.len()
        invariant
            knapsack.wf(),
            sel == chromosome.items@,
            sel.len() == knapsack.n_items(),
            used@.len() == knapsack.dims(),
            d <= knapsack.dims(),
            forall|dd: int|
                0 <= dd < knapsack.dims() ==> (#[trigger] used@[dd]) == sel_weight(
                    knapsack.items@,
                    sel,
                    dd,
                    knapsack.n_items(),
                ),
            violated == exists|dd: int|
                0 <= dd < d && knapsack.spec_capacity_left(sel, dd) < 0,
        decreases knapsack.dims() - d,
    {
        if used[d] > knapsack.capacity[d] {
            violated = true;
            proof {
                assert(knapsack.spec_capacity_left(sel, d as int) < 0);
            }
        } else {
            proof {
                assert(knapsack.spec_capacity_left(sel, d as int) >= 0);
            }
        }
        d = d + 1;
    }
    if violated {
        return Err(
            CapacityViolation { capacity: copy_u64_vec(&knapsack.capacity), utilization: used },
        );
    }
    assert(knapsack.spec_feasible(sel));
    // Selected identifiers (ascending, since identifiers follow item
    // order) and the total value of the selection.
    let mut picked: Vec<u64> = Vec::new();
    let mut total: u64 = 0;
    let mut i: usize = 0;
    while i < knapsack.items.len()
        invariant
            knapsack.wf(),
            chromosome.wf_for(*knapsack),
            items == knapsack.items@,
            sel == chromosome.items@,
            i <= knapsack.n_items(),
            picked@ == spec_picked(items, sel, i as int),
            total == sel_value(items, sel, i as int),
        decreases knapsack.n_items() - i,
    {
        proof {
            lemma_sel_value_bounds(items, sel, i + 1);
            lemma_total_value_mono(items, i + 1, knapsack.n_items());
        }
        if chromosome.items[i] {
            picked.push(knapsack.items[i].id);
            total = total + knapsack.items[i].value;
        }
        i = i + 1;
    }
    // Utilization in basis points.
    let mut utilization: Vec<u64> = Vec::new();
    let mut d: usize = 0;
    while d < knapsack.capacity.len()
        invariant
            knapsack.wf(),
            sel == chromosome.items@,
            sel.len() == knapsack.n_items(),
            knapsack.spec_feasible(sel),
            used@.len() == knapsack.dims(),
            d <= knapsack.dims(),
            forall|dd: int|
                0 <= dd < knapsack.dims() ==> (#[trigger] used@[dd]) == sel_weight(
                    knapsack.items@,
                    sel,
                    dd,
                    knapsack.n_items(),
                ),
            utilization@.len() == d,
            forall|dd: int|
                0 <= dd < d ==> (#[trigger] utilization@[dd]) == spec_util_bp(
                    sel_weight(knapsack.items@, sel, dd, knapsack.n_items()),
                    knapsack.capacity@[dd] as int,
                ),
            forall|dd: int| 0 <= dd < d ==> (#[trigger] utilization@[dd]) <= 10000,
        decreases knapsack.dims() - d,
    {
        let cap = knapsack.capacity[d];
        if cap == 0 {
            utilization.push(0);
        } else {
            let u = used[d];
            proof {
                assert(knapsack.spec_capacity_left(sel, d as int) >= 0);
                assert(u <= cap);
                vstd::arithmetic::div_mod::lemma_div_is_ordered(
                    u as int * 10000,
                    cap as int * 10000,
                    cap as int,
                );
                vstd::arithmetic::div_mod::lemma_div_multiples_vanish(10000, cap as int);
                assert((cap as int * 10000) / (cap as int) == 10000);
            }
            let bp = ((u as u128 * 10000) / (cap as u128)) as u64;
            utilization.push(bp);
        }
        d = d + 1;
    }
    proof {
        lemma_spec_picked_sorted(items, sel, knapsack.n_items());
    }
    Ok(
        Statistics {
            total_profit: total,
            picked_items: picked,
            utilization,
            iterations,
            duration,
        },
    )
}

} // verus!
