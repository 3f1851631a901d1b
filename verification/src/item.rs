use vstd::prelude::*;

verus! {

/// One knapsack item: a stable 1-based identifier, a value, and one weight
/// per capacity dimension of the owning problem instance.
#[derive(Debug)]
pub struct Item {
    pub id: u64,
    pub value: u64,
    pub weight: Vec<u64>,
}

} // verus!
