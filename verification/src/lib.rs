//! Evolutionary solver core for the multidimensional knapsack problem (MKP):
//! a problem model with feasibility arithmetic, a candidate (chromosome)
//! representation with genetic operators, constraint-repair and greedy
//! seeding heuristics, a generational search loop, and a statistics
//! collector for the best candidate found.

pub mod chromosome;
pub mod clock;
pub mod item;
pub mod knapsack;
pub mod rng;
pub mod statistics;
