use propaga_propagators::gcc::CardinalityBound;
use propaga_propagators::int_mod::{first_congruent, last_congruent};
use propaga_propagators::int_times::{ceil_div, floor_div};
use propaga_propagators::linear_scalar::div_ceil;
use propaga_propagators::matching::{hopcroft_karp, regin_supports_value, value_supported_in_graph, BipartiteGraph};
use propaga_propagators::scheduling::{edge_finding_new_est, edge_finding_new_lct, residual_energy};
use propaga_propagators::{build_time_table, detect_overload, find_excess_time, find_overload_time, MandatoryInterval, TimePoint};
use propaga_propagators::scheduling::{mandatory_literals_at_time, MandatoryContribution};
use propaga_propagators::VariableId;

#[test]
fn cardinality_bound_range_constructor() {
    let bounds = CardinalityBound::range(1, 3);
    assert_eq!(bounds.min, 1);
    assert_eq!(bounds.max, 3);
}

#[test]
fn cardinality_bound_exact_constructor() {
    let bounds = CardinalityBound::exact(2);
    assert_eq!(bounds.min, 2);
    assert_eq!(bounds.max, 2);
}

#[test]
fn floor_ceil_div_helpers() {
    assert_eq!(floor_div(7, 3), 2);
    assert_eq!(ceil_div(7, 3), 3);
    assert_eq!(floor_div(-7, 3), -3);
    assert_eq!(ceil_div(-7, 3), -2);
    assert_eq!(floor_div(7, -3), -3);
    assert_eq!(ceil_div(7, -3), -2);
}

#[test]
fn div_ceil_handles_zero_and_negative_denominator() {
    assert_eq!(div_ceil(5, 0), i32::MAX);
    assert_eq!(div_ceil(-5, 0), i32::MIN);
    assert_eq!(div_ceil(7, -3), div_ceil(-7, 3));
    assert_eq!(div_ceil(-7, 3), -2);
    assert_eq!(div_ceil(7, 3), 3);
}

#[test]
fn value_supported_in_graph_rejects_missing_value() {
    let graph = BipartiteGraph {
        adj: vec![vec![0], vec![1]],
        value_index: [(1, 0), (2, 1)].into_iter().collect(),
        value_count: 2,
    };
    assert!(!value_supported_in_graph(&graph, 1, 0, 3));
}

#[test]
fn value_supported_rejects_unknown_value_index() {
    let graph = BipartiteGraph {
        adj: vec![vec![0]],
        value_index: [(1, 0)].into_iter().collect(),
        value_count: 1,
    };
    assert!(!value_supported_in_graph(&graph, 1, 0, 2));
}

#[test]
fn hopcroft_karp_empty_left_returns_zero() {
    assert_eq!(hopcroft_karp(&[], 0, 0), 0);
}

#[test]
fn regin_supports_unmatched_right_value() {
    let pair_right = vec![Some(0), Some(1), None];
    let components = vec![0, 1, 1];
    assert!(regin_supports_value(2, 0, &pair_right, 0, &components));
}

#[test]
fn value_supported_in_graph_rejects_empty_adjacency() {
    let graph = BipartiteGraph {
        adj: vec![vec![0], vec![]],
        value_index: [(1, 0), (2, 1)].into_iter().collect(),
        value_count: 2,
    };
    assert!(!value_supported_in_graph(&graph, 2, 1, 2));
}

#[test]
fn value_supported_in_graph_rejects_missing_edge() {
    let graph = BipartiteGraph {
        adj: vec![vec![0], vec![1]],
        value_index: [(1, 0), (2, 1)].into_iter().collect(),
        value_count: 2,
    };
    assert!(!value_supported_in_graph(&graph, 2, 0, 2));
}

#[test]
fn value_supported_in_graph_detects_empty_adjacency_after_retain() {
    let graph = BipartiteGraph {
        adj: vec![vec![0, 1], vec![0], vec![1]],
        value_index: [(0, 0), (1, 1)].into_iter().collect(),
        value_count: 2,
    };
    assert!(!value_supported_in_graph(&graph, 3, 0, 1));
}

#[test]
fn value_supported_in_graph_accepts_value_in_perfect_matching() {
    let graph = BipartiteGraph {
        adj: vec![vec![0, 1], vec![0]],
        value_index: [(5, 0), (6, 1)].into_iter().collect(),
        value_count: 2,
    };
    assert!(value_supported_in_graph(&graph, 2, 0, 6));
    assert!(!value_supported_in_graph(&graph, 2, 0, 5));
}

#[test]
fn bfs_skips_infinite_distance_queue_entries() {
    for left_count in 2..=5 {
        for right_count in 2..=5 {
            let adj = vec![vec![0usize]; left_count];
            let _ = hopcroft_karp(&adj, left_count, right_count);
        }
    }
    let adj = vec![vec![0usize, 1usize], vec![0usize], vec![1usize]];
    let _ = hopcroft_karp(&adj, 3, 2);
}

#[test]
fn hopcroft_karp_finds_maximum_matching_sizes() {
    let adj = vec![vec![0usize]; 3];
    assert_eq!(hopcroft_karp(&adj, 3, 2), 1);
    let adj = vec![vec![0usize, 1usize], vec![0usize], vec![1usize, 2usize]];
    assert_eq!(hopcroft_karp(&adj, 3, 3), 3);
}

#[test]
fn weighted_demand_detects_overload() {
    let intervals = vec![
        (MandatoryInterval { start: 0, end: 2 }, 2),
        (MandatoryInterval { start: 0, end: 2 }, 2),
    ];
    assert_eq!(find_overload_time(&intervals, 2, 0, 3), Some(0));
}

#[test]
fn find_excess_time_from_table() {
    let table = vec![TimePoint { time: 0, usage: 2 }, TimePoint { time: 1, usage: 3 }];
    assert_eq!(find_excess_time(&table, 2), Some(1));
}

#[test]
fn detects_mandatory_overload() {
    let intervals = vec![
        (MandatoryInterval { start: 0, end: 3 }, 1),
        (MandatoryInterval { start: 1, end: 4 }, 1),
    ];
    assert!(detect_overload(&intervals, 1, 0, 5));
    assert_eq!(find_overload_time(&intervals, 1, 0, 5), Some(1));
}

#[test]
fn no_overload_within_capacity() {
    let intervals = vec![
        (MandatoryInterval { start: 0, end: 2 }, 1),
        (MandatoryInterval { start: 2, end: 4 }, 1),
    ];
    assert!(!detect_overload(&intervals, 1, 0, 5));
    assert_eq!(find_overload_time(&intervals, 1, 0, 5), None);
}

#[test]
fn overload_with_zero_capacity_starts_at_first_demand() {
    let intervals = vec![(MandatoryInterval { start: 5, end: 7 }, 1)];
    assert_eq!(find_overload_time(&intervals, 0, 0, 10), Some(5));
    assert!(detect_overload(&intervals, 0, 0, 10));
    assert!(!detect_overload(&intervals, 0, 0, 5));
    assert_eq!(find_overload_time(&intervals, 0, 7, 10), None);
}

#[test]
fn congruent_values_are_searched_across_zero() {
    assert_eq!(first_congruent(-10, 5, 3), Some(3));
    assert_eq!(first_congruent(-10, 5, -3), Some(-8));
    assert_eq!(first_congruent(4, 5, 3), Some(8));
    assert_eq!(last_congruent(10, 5, -3), Some(-3));
    assert_eq!(last_congruent(10, 5, 3), Some(8));
    assert_eq!(last_congruent(-10, 5, 3), None);
    assert_eq!(first_congruent(10, 5, -3), None);
}

#[test]
fn excess_time_on_table_matches_overload_time() {
    let intervals = vec![
        (MandatoryInterval { start: 0, end: 4 }, 1),
        (MandatoryInterval { start: 2, end: 6 }, 2),
        (MandatoryInterval { start: 5, end: 7 }, 1),
    ];
    for capacity in [0, 1, 2, 3] {
        let table = build_time_table(&intervals, 0, 7);
        assert_eq!(find_excess_time(&table, capacity), find_overload_time(&intervals, capacity, 0, 7));
    }
    let table = build_time_table(&intervals, 0, 7);
    assert_eq!(find_excess_time(&table, 2), Some(2));
    assert_eq!(find_excess_time(&table, 3), None);
}

#[test]
fn edge_finding_bounds_and_residual_energy() {
    assert_eq!(residual_energy(2, 0, 4, 6), 2);
    assert_eq!(residual_energy(1, 3, 1, 0), -2);
    // Two units of energy past time 4 at demand 2 need one time unit after 4.
    assert_eq!(edge_finding_new_est(4, 2, 2, 2), 3);
    assert_eq!(edge_finding_new_est(4, 2, 2, 3), 4);
    assert_eq!(edge_finding_new_lct(0, 3, 1, 2), 1);
    assert_eq!(edge_finding_new_est(i32::MAX, -5, 1, 10), i32::MAX);
}

#[test]
fn mandatory_literals_include_only_overlapping_tasks() {
    let a = VariableId { index: 0 };
    let b = VariableId { index: 1 };
    let c = VariableId { index: 2 };
    let contributions = vec![
        MandatoryContribution {
            interval: MandatoryInterval { start: 0, end: 4 },
            demand: 1,
            start_var: a,
            start_value: 0,
        },
        MandatoryContribution {
            interval: MandatoryInterval { start: 4, end: 7 },
            demand: 1,
            start_var: b,
            start_value: 4,
        },
        MandatoryContribution {
            interval: MandatoryInterval { start: 0, end: 2 },
            demand: 1,
            start_var: c,
            start_value: 0,
        },
    ];
    let literals = mandatory_literals_at_time(&contributions, 0);
    assert_eq!(literals.len(), 2);
    assert!(literals.iter().any(|(var, _)| *var == a));
    assert!(literals.iter().any(|(var, _)| *var == c));
    assert!(!literals.iter().any(|(var, _)| *var == b));
}
