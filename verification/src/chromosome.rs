use vstd::prelude::*;

use crate::knapsack::Knapsack;
use crate::knapsack::lemma_sel_weight_update;
use crate::knapsack::sel_value;
use crate::knapsack::spec_repair;
use crate::rng::rand_below;
use crate::rng::rand_one_in;

verus! {

/// How many of the first `n` positions two selections disagree on.
pub open spec fn count_diff(a: Seq<bool>, b: Seq<bool>, n: int) -> int
    decreases n,
{
    if n <= 0 {
        0
    } else {
        count_diff(a, b, n - 1) + if a[n - 1] != b[n - 1] {
            1int
        } else {
            0int
        }
    }
}

/// A selection does not disagree with itself.
pub proof fn lemma_count_diff_refl(a: Seq<bool>, n: int)
    ensures
        count_diff(a, a, n) == 0,
    decreases n,
{
    if n > 0 {
        lemma_count_diff_refl(a, n - 1);
    }
}

/// Updating one position adds at most one disagreement.
pub proof fn lemma_count_diff_update(a: Seq<bool>, b: Seq<bool>, n: int, j: int, x: bool)
    requires
        0 <= j < a.len(),
        n <= a.len(),
    ensures
        count_diff(a.update(j, x), b, n) <= count_diff(a, b, n) + 1,
        j >= n ==> count_diff(a.update(j, x), b, n) == count_diff(a, b, n),
        count_diff(a, b, n) >= 0,
    decreases n,
{
    if n > 0 {
        lemma_count_diff_update(a, b, n - 1, j, x);
    }
}

/// The fitness of a selection: an infeasible candidate scores the
/// minimum representable value, which disqualifies it from ever being
/// best; a feasible one scores the sum of its selected items' values.
pub open spec fn spec_fitness(k: Knapsack, sel: Seq<bool>) -> int {
    if k.spec_feasible(sel) {
        sel_value(k.items@, sel, k.n_items())
    } else {
        0
    }
}

/// A candidate solution: one selection bit per item of the owning problem
/// instance. Many chromosomes share one `Knapsack`, so a chromosome holds
/// only its selection vector — no back-reference — and is paired with the
/// instance at each call. `wf_for` ties only the lengths, so keeping each
/// chromosome with the instance it was built for is the caller's duty; a
/// same-sized instance would be accepted and evaluated against instead.
#[derive(Debug)]
pub struct Chromosome {
    pub items: Vec<bool>,
}

impl Chromosome {
    /// A chromosome is tied to an instance: one selection bit per item.
    pub open spec fn wf_for(self, knapsack: Knapsack) -> bool {
        self.items@.len() == knapsack.items@.len()
    }

    /// The all-unselected chromosome for the given instance.
    pub fn new(knapsack: &Knapsack) -> (c: Chromosome)
        ensures
            c.wf_for(*knapsack),
            forall|i: int| 0 <= i < c.items@.len() ==> !(#[trigger] c.items@[i]),
    {
        Chromosome { items: vec![false; knapsack.items.len()] }
    }

    /// An independent copy of this chromosome's selection vector.
    pub fn duplicate(&self) -> (c: Chromosome)
        ensures
            c.items@ == self.items@,
    {
        let mut copy: Vec<bool> = Vec::new();
        let mut i: usize = 0;
        while i < self.items.len()
            invariant
                i <= self.items@.len(),
                copy@ == self.items@.subrange(0, i as int),
            decreases self.items@.len() - i,
        {
            copy.push(self.items[i]);
            i = i + 1;
        }
        assert(copy@ == self.items@.subrange(0, self.items@.len() as int));
        assert(self.items@.subrange(0, self.items@.len() as int) == self.items@);
        Chromosome { items: copy }
    }

    /// Random generation: repeatedly draw a uniformly random item and
    /// select it while it still fits; stop at the first drawn item that
    /// does not fit (single-shot rejection, not retried), or once the
    /// draw budget that bounds the loop runs out. Starting from a
    /// feasible selection, the result is feasible.
    pub fn generate(&mut self, knapsack: &Knapsack, rng: &mut rand::rngs::StdRng)
        requires
            knapsack.wf(),
            old(self).wf_for(*knapsack),
            knapsack.spec_feasible(old(self).items@),
            knapsack.items@.len() >= 1,
        ensures
            final(self).wf_for(*knapsack),
            knapsack.spec_feasible(final(self).items@),
            forall|j: int|
                0 <= j < final(self).items@.len() ==> ((#[trigger] old(self).items@[j])
                    ==> final(self).items@[j]),
    {
        let n = knapsack.items.len();
        let mut budget: u128 = (n as u128) * 8 + 8;
        loop
            invariant
                knapsack.wf(),
                self.wf_for(*knapsack),
                knapsack.spec_feasible(self.items@),
                n == knapsack.items@.len(),
                n >= 1,
                forall|j: int|
                    0 <= j < self.items@.len() ==> ((#[trigger] old(self).items@[j])
                        ==> self.items@[j]),
            decreases budget,
        {
            if budget == 0 {
                break;
            }
            budget = budget - 1;
            let idx = rand_below(rng, n);
            if !knapsack.will_item_fit(&*self, &knapsack.items[idx]) {
                break;
            }
            let ghost pre = self.items@;
            self.items[idx] = true;
            proof {
                assert forall|dd: int|
                    0 <= dd < knapsack.dims() implies knapsack.spec_capacity_left(
                    self.items@,
                    dd,
                ) >= 0 by {
                    lemma_sel_weight_update(
                        knapsack.items@,
                        pre,
                        dd,
                        knapsack.n_items(),
                        idx as int,
                        true,
                    );
                }
            }
        }
    }

    /// The candidate's fitness: the minimum representable value when
    /// infeasible, otherwise the total value of the selected items.
    pub fn fitness(&self, knapsack: &Knapsack) -> (r: u64)
        requires
            knapsack.wf(),
            self.wf_for(*knapsack),
        ensures
            r == spec_fitness(*knapsack, self.items@),
    {
        if !knapsack.is_chromosome_feasible(self) {
            u64::MIN
        } else {
            knapsack.chromosome_total_value(self)
        }
    }

    /// Uniform crossover: where the two parents agree, the child copies
    /// them; where they disagree, the child's bit is an unbiased coin
    /// flip. The child is not repaired here, so it may be infeasible.
    pub fn crossover(&self, other: &Chromosome, rng: &mut rand::rngs::StdRng) -> (c: Chromosome)
        requires
            self.items@.len() == other.items@.len(),
        ensures
            c.items@.len() == self.items@.len(),
            forall|i: int|
                0 <= i < c.items@.len() ==> (self.items@[i] == other.items@[i] ==> (
                #[trigger] c.items@[i]) == self.items@[i]),
            forall|i: int|
                0 <= i < c.items@.len() ==> ((#[trigger] c.items@[i]) == self.items@[i]
                    || c.items@[i] == other.items@[i]),
    {
        let mut c = self.duplicate();
        let mut i: usize = 0;
        while i < c.items.len()
            invariant
                self.items@.len() == other.items@.len(),
                c.items@.len() == self.items@.len(),
                i <= c.items@.len(),
                forall|j: int|
                    0 <= j < i ==> (self.items@[j] == other.items@[j] ==> (
                    #[trigger] c.items@[j]) == self.items@[j]),
                forall|j: int|
                    0 <= j < i ==> ((#[trigger] c.items@[j]) == self.items@[j] || c.items@[j]
                        == other.items@[j]),
                forall|j: int| i <= j < c.items@.len() ==> (#[trigger] c.items@[j]) == self.items@[j],
            decreases c.items@.len() - i,
        {
            if self.items[i] != other.items[i] {
                c.items[i] = rand_one_in(rng, 2);
            }
            i = i + 1;
        }
        c
    }

    /// Point mutation: with probability 1/8 flip one random bit, and
    /// independently with probability 1/16 flip another, then repair.
    /// Whatever bits flip, the result is feasible, and it is exactly the
    /// repair of a selection that differs from this one in at most two
    /// positions.
    pub fn mutate(&self, knapsack: &Knapsack, rng: &mut rand::rngs::StdRng) -> (c: Chromosome)
        requires
            knapsack.wf(),
            self.wf_for(*knapsack),
            knapsack.items@.len() >= 1,
        ensures
            c.wf_for(*knapsack),
            knapsack.spec_feasible(c.items@),
            exists|pre_repair: Seq<bool>|
                {
                    &&& pre_repair.len() == self.items@.len()
                    &&& count_diff(pre_repair, self.items@, self.items@.len() as int) <= 2
                    &&& c.items@ == #[trigger] spec_repair(*knapsack, pre_repair)
                },
    {
        let ghost n = self.items@.len() as int;
        let mut c = self.duplicate();
        proof {
            lemma_count_diff_refl(self.items@, n);
        }
        if rand_one_in(rng, 8) {
            let idx = rand_below(rng, c.items.len());
            let flipped = !c.items[idx];
            let ghost before = c.items@;
            c.items[idx] = flipped;
            proof {
                lemma_count_diff_update(before, self.items@, n, idx as int, flipped);
            }
        }
        assert(count_diff(c.items@, self.items@, n) <= 1);
        if rand_one_in(rng, 16) {
            let idx = rand_below(rng, c.items.len());
            let flipped = !c.items[idx];
            let ghost before = c.items@;
            c.items[idx] = flipped;
            proof {
                lemma_count_diff_update(before, self.items@, n, idx as int, flipped);
            }
        }
        assert(count_diff(c.items@, self.items@, n) <= 2);
        let ghost pre_repair = c.items@;
        knapsack.repair_chromosome(&mut c);
        assert(c.items@ == spec_repair(*knapsack, pre_repair));
        c
    }
}

} // verus!
