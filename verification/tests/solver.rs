use genetic_mkp::chromosome::Chromosome;
use genetic_mkp::item::Item;
use genetic_mkp::knapsack::Knapsack;
use genetic_mkp::rng::rng_from_seed;
use genetic_mkp::statistics::{collect, Statistics};

fn item(id: u64, value: u64, weight: Vec<u64>) -> Item {
    Item { id, value, weight }
}

/// The three-item, one-dimension instance: capacity [10], values
/// [6, 5, 4], weights [5, 4, 3].
fn small_instance() -> Knapsack {
    Knapsack::new(
        vec![10],
        vec![
            item(1, 6, vec![5]),
            item(2, 5, vec![4]),
            item(3, 4, vec![3]),
        ],
    )
    .expect("valid instance")
}

#[test]
fn greedy_picks_by_profit_density() {
    // Profit densities 6/5 < 5/4 < 4/3, so greedy adds item 3, then
    // item 2 (weights 3 + 4 = 7 <= 10), and stops because item 1
    // (weight 5) no longer fits: selection {2, 3}, value 9.
    let knapsack = small_instance();
    let greedy = knapsack.greedy_chromosome();
    assert_eq!(greedy.items, vec![false, true, true]);
    assert_eq!(knapsack.chromosome_total_value(&greedy), 9);
    assert!(knapsack.is_chromosome_feasible(&greedy));
}

#[test]
fn greedy_never_exceeds_capacity() {
    let knapsack = Knapsack::new(
        vec![7, 9],
        vec![
            item(1, 10, vec![4, 1]),
            item(2, 9, vec![2, 6]),
            item(3, 8, vec![3, 3]),
            item(4, 1, vec![7, 9]),
        ],
    )
    .expect("valid instance");
    let greedy = knapsack.greedy_chromosome();
    let left = knapsack.capacity_left(&greedy);
    assert!(left.iter().all(|x| *x >= 0));
}

#[test]
fn zero_iterations_returns_greedy_summary() {
    let knapsack = small_instance();
    let mut rng = rng_from_seed(7);
    let result = knapsack.run_ga(2, 1, 0, &mut rng);
    assert_eq!(result.total_profit, 9);
    assert_eq!(result.picked_items, vec![2, 3]);
    assert_eq!(result.utilization, vec![7000]);
    assert_eq!(result.iterations, 0);
}

#[test]
fn capacity_violation_is_detected() {
    // A deliberately corrupted best candidate: all three items
    // selected consumes 12 > 10.
    let knapsack = small_instance();
    let corrupted = Chromosome { items: vec![true, true, true] };
    match collect(&knapsack, &corrupted, 5, 0) {
        Ok(_) => panic!("an over-full selection must be rejected"),
        Err(violation) => {
            assert_eq!(violation.capacity, vec![10]);
            assert_eq!(violation.utilization, vec![12]);
        }
    }
}

#[test]
fn collect_reports_feasible_selection() {
    let knapsack = small_instance();
    let candidate = Chromosome { items: vec![true, false, true] };
    let stats = collect(&knapsack, &candidate, 3, 42).expect("feasible");
    assert_eq!(stats.total_profit, 10);
    assert_eq!(stats.picked_items, vec![1, 3]);
    assert_eq!(stats.utilization, vec![8000]);
    assert_eq!(stats.iterations, 3);
    assert_eq!(stats.duration, 42);
}

#[test]
fn utilization_stays_within_bounds() {
    let knapsack = Knapsack::new(
        vec![5, 11, 3],
        vec![
            item(1, 4, vec![5, 2, 0]),
            item(2, 7, vec![0, 9, 3]),
            item(3, 2, vec![1, 1, 1]),
        ],
    )
    .expect("valid instance");
    let mut rng = rng_from_seed(11);
    let result = knapsack.run_ga(6, 4, 25, &mut rng);
    assert_eq!(result.utilization.len(), 3);
    assert!(result.utilization.iter().all(|bp| *bp <= 10000));
}

#[test]
fn repair_fixes_infeasible_candidate() {
    let knapsack = small_instance();
    let mut corrupted = Chromosome { items: vec![true, true, true] };
    knapsack.repair_chromosome(&mut corrupted);
    assert!(knapsack.is_chromosome_feasible(&corrupted));
    // With 12 of 10 consumed, item 3 carries the worst profit density
    // against the over-committed capacity (4 / -1.5 is the most
    // negative) and is dropped first; 9 of 10 is then feasible.
    assert_eq!(corrupted.items, vec![true, true, false]);
}

#[test]
fn repair_leaves_feasible_candidate_unchanged() {
    let knapsack = small_instance();
    let mut feasible = Chromosome { items: vec![true, false, true] };
    knapsack.repair_chromosome(&mut feasible);
    assert_eq!(feasible.items, vec![true, false, true]);
}

#[test]
fn repair_never_adds_selections() {
    let knapsack = Knapsack::new(
        vec![4, 4],
        vec![
            item(1, 9, vec![4, 0]),
            item(2, 8, vec![0, 4]),
            item(3, 7, vec![3, 3]),
        ],
    )
    .expect("valid instance");
    let before = vec![true, true, true];
    let mut candidate = Chromosome { items: before.clone() };
    knapsack.repair_chromosome(&mut candidate);
    assert!(knapsack.is_chromosome_feasible(&candidate));
    for i in 0..3 {
        if candidate.items[i] {
            assert!(before[i]);
        }
    }
}

#[test]
fn generated_candidates_are_feasible() {
    let knapsack = Knapsack::new(
        vec![6, 6],
        vec![
            item(1, 3, vec![2, 1]),
            item(2, 5, vec![1, 3]),
            item(3, 4, vec![3, 2]),
            item(4, 2, vec![2, 2]),
        ],
    )
    .expect("valid instance");
    let mut rng = rng_from_seed(99);
    for _ in 0..50 {
        let mut candidate = Chromosome::new(&knapsack);
        candidate.generate(&knapsack, &mut rng);
        assert!(knapsack.is_chromosome_feasible(&candidate));
    }
}

#[test]
fn mutation_output_is_feasible() {
    let knapsack = small_instance();
    let mut rng = rng_from_seed(3);
    let mut candidate = knapsack.greedy_chromosome();
    for _ in 0..200 {
        candidate = candidate.mutate(&knapsack, &mut rng);
        assert!(knapsack.is_chromosome_feasible(&candidate));
    }
}

#[test]
fn crossover_copies_agreeing_positions() {
    let a = Chromosome { items: vec![true, false, true, false] };
    let b = Chromosome { items: vec![true, false, false, true] };
    let mut rng = rng_from_seed(5);
    for _ in 0..20 {
        let child = a.crossover(&b, &mut rng);
        assert_eq!(child.items.len(), 4);
        assert!(child.items[0]);
        assert!(!child.items[1]);
        for i in 0..4 {
            assert!(child.items[i] == a.items[i] || child.items[i] == b.items[i]);
        }
    }
}

#[test]
fn fitness_penalizes_infeasible_candidates() {
    let knapsack = small_instance();
    let infeasible = Chromosome { items: vec![true, true, true] };
    assert_eq!(infeasible.fitness(&knapsack), 0);
    let feasible = Chromosome { items: vec![false, true, true] };
    assert_eq!(feasible.fitness(&knapsack), 9);
    let empty = Chromosome::new(&knapsack);
    assert_eq!(empty.fitness(&knapsack), 0);
}

#[test]
fn will_item_fit_checks_every_dimension() {
    let knapsack = Knapsack::new(
        vec![10, 4],
        vec![item(1, 6, vec![5, 4]), item(2, 5, vec![4, 1])],
    )
    .expect("valid instance");
    let empty = Chromosome::new(&knapsack);
    assert!(knapsack.will_item_fit(&empty, &knapsack.items[0]));
    let first_selected = Chromosome { items: vec![true, false] };
    // Dimension one still has room (5 of 10) but dimension two is
    // exhausted (0 of 4 left, item needs 1).
    assert!(!knapsack.will_item_fit(&first_selected, &knapsack.items[1]));
}

#[test]
fn capacity_left_may_go_negative() {
    let knapsack = small_instance();
    let over_full = Chromosome { items: vec![true, true, true] };
    assert_eq!(knapsack.capacity_left(&over_full), vec![-2]);
    assert!(!knapsack.is_chromosome_feasible(&over_full));
    let empty = Chromosome::new(&knapsack);
    assert_eq!(knapsack.capacity_left(&empty), vec![10]);
}

#[test]
fn best_value_never_decreases_across_steps() {
    let knapsack = Knapsack::new(
        vec![9, 9],
        vec![
            item(1, 5, vec![4, 2]),
            item(2, 6, vec![2, 5]),
            item(3, 3, vec![3, 3]),
            item(4, 4, vec![1, 4]),
        ],
    )
    .expect("valid instance");
    let mut rng = rng_from_seed(21);
    let mut population = vec![
        knapsack.greedy_chromosome(),
        Chromosome::new(&knapsack),
        Chromosome::new(&knapsack),
        Chromosome::new(&knapsack),
    ];
    let mut best = knapsack.greedy_chromosome();
    let mut last = knapsack.chromosome_total_value(&best);
    for _ in 0..30 {
        knapsack.evolve_step(&mut population, 3, &mut best, &mut rng);
        let now = knapsack.chromosome_total_value(&best);
        assert!(now >= last);
        assert_eq!(population.len(), 4);
        // The best-ever candidate dominates every population member.
        for member in &population {
            assert!(knapsack.chromosome_total_value(member) <= now);
        }
        last = now;
    }
}

#[test]
fn search_result_is_at_least_greedy() {
    let knapsack = Knapsack::new(
        vec![12, 10],
        vec![
            item(1, 8, vec![6, 1]),
            item(2, 7, vec![1, 6]),
            item(3, 6, vec![5, 5]),
            item(4, 5, vec![2, 2]),
            item(5, 4, vec![3, 3]),
        ],
    )
    .expect("valid instance");
    let greedy_value = {
        let greedy = knapsack.greedy_chromosome();
        knapsack.chromosome_total_value(&greedy)
    };
    let mut rng = rng_from_seed(13);
    let result = knapsack.run_ga(10, 6, 40, &mut rng);
    assert!(result.total_profit >= greedy_value);
    assert_eq!(result.iterations, 40);
}

#[test]
fn instance_validation_rejects_bad_data() {
    // Mismatched weight-vector length.
    assert!(Knapsack::new(vec![5, 5], vec![item(1, 1, vec![1])]).is_none());
    // Wrong identifier (must be position + 1).
    assert!(Knapsack::new(vec![5], vec![item(2, 1, vec![1])]).is_none());
    // Capacity beyond the signed arithmetic range.
    assert!(Knapsack::new(vec![u64::MAX], vec![item(1, 1, vec![1])]).is_none());
    // Per-dimension weight total beyond the signed arithmetic range.
    assert!(Knapsack::new(
        vec![5],
        vec![item(1, 1, vec![u64::MAX]), item(2, 1, vec![u64::MAX])],
    )
    .is_none());
    // Value total beyond range.
    assert!(Knapsack::new(
        vec![5],
        vec![item(1, u64::MAX, vec![1]), item(2, u64::MAX, vec![1])],
    )
    .is_none());
    // A well-formed instance passes.
    assert!(Knapsack::new(vec![5], vec![item(1, 1, vec![1])]).is_some());
}

#[test]
fn empty_statistics_record() {
    let stats = Statistics::new();
    assert_eq!(stats.total_profit, 0);
    assert!(stats.picked_items.is_empty());
    assert!(stats.utilization.is_empty());
    assert_eq!(stats.iterations, 0);
    assert_eq!(stats.duration, 0);
}

#[test]
fn zero_capacity_dimension_counts_as_empty() {
    let knapsack = Knapsack::new(
        vec![10, 0],
        vec![item(1, 3, vec![4, 0]), item(2, 2, vec![2, 0])],
    )
    .expect("valid instance");
    let both = Chromosome { items: vec![true, true] };
    let stats = collect(&knapsack, &both, 0, 0).expect("feasible");
    assert_eq!(stats.utilization, vec![6000, 0]);
    assert_eq!(stats.total_profit, 5);
}

#[test]
fn profit_density_ranking_matches_hand_computation() {
    let knapsack = small_instance();
    let empty = Chromosome::new(&knapsack);
    let left = knapsack.capacity_left(&empty);
    let s1 = knapsack.profit_score(&knapsack.items[0], &left);
    let s2 = knapsack.profit_score(&knapsack.items[1], &left);
    let s3 = knapsack.profit_score(&knapsack.items[2], &left);
    // Densities 6/5 = 1.2 < 5/4 = 1.25 < 4/3 = 1.33.
    assert!(s1 < s2);
    assert!(s2 < s3);
}

#[test]
fn exhausted_dimension_ranks_consumers_last() {
    let knapsack = Knapsack::new(
        vec![4, 4],
        vec![item(1, 9, vec![4, 0]), item(2, 1, vec![0, 1])],
    )
    .expect("valid instance");
    let first_selected = Chromosome { items: vec![true, false] };
    let left = knapsack.capacity_left(&first_selected);
    assert_eq!(left, vec![0, 4]);
    // Item 1 consumes the exhausted first dimension: bottom rank.
    let s1 = knapsack.profit_score(&knapsack.items[0], &left);
    let s2 = knapsack.profit_score(&knapsack.items[1], &left);
    assert_eq!(s1, 0);
    assert!(s2 > s1);
}
