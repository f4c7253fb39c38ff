use propaga_propagators::domain::{DomainStore, IntDomain, PropagationStatus};
use propaga_propagators::dominance_cut::{DominanceCutDirection, IntDominanceCutPropagator};
use propaga_propagators::equality::{propagate_equal, EqualityPropagator};
use propaga_propagators::int_abs::IntAbsPropagator;
use propaga_propagators::int_minmax::{IntMinMaxOp, IntMinMaxPropagator};
use propaga_propagators::int_times::IntTimesPropagator;
use propaga_propagators::less_equal::LessEqualPropagator;
use propaga_propagators::less_than::LessThanPropagator;
use propaga_propagators::linear_eq::LinearEqPropagator;
use propaga_propagators::not_equal_offset::NotEqualOffsetPropagator;
use propaga_propagators::all_different::{propagate_matching, AllDifferentPropagator};
use propaga_propagators::circuit::CircuitPropagator;
use propaga_propagators::matching::{has_perfect_matching, hopcroft_karp, remove_unsupported_values, value_in_some_matching};
use propaga_propagators::regular::{enumerate_accepting_tuples, RegularPropagator};
use propaga_propagators::reified::{
    ReifiedEqualityPropagator, ReifiedLessEqualPropagator, ReifiedLessThanPropagator, ReifiedNotEqualPropagator,
};

#[test]
fn domain_basic_queries() {
    let d = IntDomain::new(3, 7);
    assert_eq!(d.min(), Some(3));
    assert_eq!(d.max(), Some(7));
    assert!(d.contains(5));
    assert!(!d.contains(8));
    assert_eq!(d.fixed_value(), None);
    assert_eq!(IntDomain::fix(4).fixed_value(), Some(4));
    assert!(IntDomain::new(1, 0).is_empty());
    assert!(IntDomain::empty().is_empty());
}

#[test]
fn domain_holes_and_cuts() {
    let d = IntDomain::new(1, 5).without(3);
    assert_eq!(d.values(), vec![1, 2, 4, 5]);
    assert_eq!(d.above(3).values(), vec![4, 5]);
    assert_eq!(d.below(2).values(), vec![1, 2]);
    assert_eq!(d.above(4).below(4).fixed_value(), Some(4));
    assert_eq!(IntDomain::new(i32::MAX - 1, i32::MAX).values(), vec![i32::MAX - 1, i32::MAX]);
}

#[test]
fn store_removals_report_changes() {
    let mut store = DomainStore::new();
    let x = store.new_variable(IntDomain::new(1, 10));
    assert!(store.remove_below(x, 3));
    assert!(!store.remove_below(x, 2));
    assert!(store.remove_above(x, 8));
    assert!(store.remove_value(x, 5));
    assert!(!store.remove_value(x, 5));
    assert_eq!(store.values(x), vec![3, 4, 6, 7, 8]);
    assert!(store.restrict(x, 4, 6));
    assert_eq!(store.values(x), vec![4, 6]);
}

#[test]
fn less_equal_empty_domain_returns_failure() {
    let mut store = DomainStore::new();
    let left = store.new_variable(IntDomain::new(1, 0));
    let right = store.new_variable(IntDomain::new(1, 5));
    let mut p = LessEqualPropagator::new(left, right);
    assert_eq!(p.propagate(&mut store), PropagationStatus::Failure);
}

#[test]
fn less_equal_disjoint_bounds_fail_without_change() {
    let mut store = DomainStore::new();
    let left = store.new_variable(IntDomain::new(5, 6));
    let right = store.new_variable(IntDomain::fix(2));
    let mut p = LessEqualPropagator::new(left, right);
    assert_eq!(p.propagate(&mut store), PropagationStatus::Failure);
    assert_eq!(store.values(left), vec![5, 6]);
}

#[test]
fn less_than_tightens_both_sides() {
    let mut store = DomainStore::new();
    let left = store.new_variable(IntDomain::new(1, 10));
    let right = store.new_variable(IntDomain::new(0, 5));
    let mut p = LessThanPropagator::new(left, right);
    assert_eq!(p.propagate(&mut store), PropagationStatus::OkChanged);
    assert_eq!(store.values(left), vec![1, 2, 3, 4]);
    assert_eq!(store.values(right), vec![2, 3, 4, 5]);
}

#[test]
fn less_than_equal_fixed_values_fail() {
    let mut store = DomainStore::new();
    let left = store.new_variable(IntDomain::fix(3));
    let right = store.new_variable(IntDomain::fix(3));
    let mut p = LessThanPropagator::new(left, right);
    assert_eq!(p.propagate(&mut store), PropagationStatus::Failure);
}

#[test]
fn less_than_same_variable_strips_extremes() {
    let mut store = DomainStore::new();
    let x = store.new_variable(IntDomain::new(1, 4));
    let mut p = LessThanPropagator::new(x, x);
    assert_eq!(p.propagate(&mut store), PropagationStatus::OkChanged);
    assert_eq!(store.values(x), vec![2, 3]);
    assert_eq!(p.propagate(&mut store), PropagationStatus::Failure);
    assert!(store.is_empty(x));
}

#[test]
fn fixed_right_removes_conflicting_left_value() {
    let mut store = DomainStore::new();
    let left = store.new_variable(IntDomain::new(0, 3));
    let right = store.new_variable(IntDomain::fix(1));
    let mut p = NotEqualOffsetPropagator::new(left, right, 1);
    assert_eq!(p.propagate(&mut store), PropagationStatus::OkChanged);
    assert!(!store.contains(left, 2));
}

#[test]
fn not_equal_offset_out_of_range_value_is_ignored() {
    let mut store = DomainStore::new();
    let left = store.new_variable(IntDomain::new(0, 3));
    let right = store.new_variable(IntDomain::fix(i32::MAX));
    let mut p = NotEqualOffsetPropagator::new(left, right, 1);
    assert_eq!(p.propagate(&mut store), PropagationStatus::OkNoChange);
    assert_eq!(store.values(left), vec![0, 1, 2, 3]);
}

#[test]
fn equality_bounds_are_synchronized() {
    let mut store = DomainStore::new();
    let left = store.new_variable(IntDomain::new(3, 7));
    let right = store.new_variable(IntDomain::new(1, 10));
    let mut p = EqualityPropagator::new(left, right);
    assert_eq!(p.propagate(&mut store), PropagationStatus::OkChanged);
    assert_eq!(store.min(right), Some(3));
    assert_eq!(store.max(right), Some(7));
    assert_eq!(store.min(left), Some(3));
    assert_eq!(store.max(left), Some(7));
}

#[test]
fn propagate_equal_fixed_left_fixes_right() {
    let mut store = DomainStore::new();
    let left = store.new_variable(IntDomain::fix(5));
    let right = store.new_variable(IntDomain::new(1, 10));
    assert!(propagate_equal(&mut store, left, right));
    assert_eq!(store.fixed_value(right), Some(5));
    assert!(!propagate_equal(&mut store, left, right));
}

#[test]
fn abs_cuts_result_and_operand() {
    let mut store = DomainStore::new();
    let a = store.new_variable(IntDomain::new(-3, 2));
    let b = store.new_variable(IntDomain::new(-10, 10));
    let mut p = IntAbsPropagator::new(a, b);
    assert_eq!(p.propagate(&mut store), PropagationStatus::OkChanged);
    assert_eq!(store.min(b), Some(0));
    assert_eq!(store.max(b), Some(3));
}

#[test]
fn abs_nonnegative_operand_equals_result() {
    let mut store = DomainStore::new();
    let a = store.new_variable(IntDomain::new(2, 9));
    let b = store.new_variable(IntDomain::new(0, 5));
    let mut p = IntAbsPropagator::new(a, b);
    assert_eq!(p.propagate(&mut store), PropagationStatus::OkChanged);
    assert_eq!(store.values(a), vec![2, 3, 4, 5]);
    assert_eq!(store.values(b), vec![2, 3, 4, 5]);
}

#[test]
fn abs_negative_result_fails() {
    let mut store = DomainStore::new();
    let a = store.new_variable(IntDomain::new(-3, 3));
    let b = store.new_variable(IntDomain::new(-5, -1));
    let mut p = IntAbsPropagator::new(a, b);
    assert_eq!(p.propagate(&mut store), PropagationStatus::Failure);
}

#[test]
fn forward_tightens_product_bounds() {
    let mut store = DomainStore::new();
    let a = store.new_variable(IntDomain::new(2, 4));
    let b = store.new_variable(IntDomain::new(3, 5));
    let c = store.new_variable(IntDomain::new(0, 100));
    let mut p = IntTimesPropagator::new(a, b, c);
    assert_eq!(p.propagate(&mut store), PropagationStatus::OkChanged);
    assert_eq!(store.min(c), Some(6));
    assert_eq!(store.max(c), Some(20));
}

#[test]
fn reverse_when_factor_fixed() {
    let mut store = DomainStore::new();
    let a = store.new_variable(IntDomain::fix(3));
    let b = store.new_variable(IntDomain::new(1, 10));
    let c = store.new_variable(IntDomain::new(12, 15));
    let mut p = IntTimesPropagator::new(a, b, c);
    assert_eq!(p.propagate(&mut store), PropagationStatus::OkChanged);
    assert_eq!(store.min(b), Some(4));
    assert_eq!(store.max(b), Some(5));
}

#[test]
fn zero_factor_forces_zero_product() {
    let mut store = DomainStore::new();
    let a = store.new_variable(IntDomain::fix(0));
    let b = store.new_variable(IntDomain::new(-5, 5));
    let c = store.new_variable(IntDomain::new(-10, 10));
    let mut p = IntTimesPropagator::new(a, b, c);
    assert_eq!(p.propagate(&mut store), PropagationStatus::OkChanged);
    assert_eq!(store.fixed_value(c), Some(0));
}

#[test]
fn nonzero_product_removes_zero_factor() {
    let mut store = DomainStore::new();
    let a = store.new_variable(IntDomain::new(0, 3));
    let b = store.new_variable(IntDomain::new(1, 2));
    let c = store.new_variable(IntDomain::new(1, 6));
    let mut p = IntTimesPropagator::new(a, b, c);
    assert_eq!(p.propagate(&mut store), PropagationStatus::OkChanged);
    assert!(!store.contains(a, 0));
}

#[test]
fn times_without_quotient_fails() {
    let mut store = DomainStore::new();
    let a = store.new_variable(IntDomain::fix(4));
    let b = store.new_variable(IntDomain::new(-10, 10));
    let c = store.new_variable(IntDomain::new(5, 7));
    let mut p = IntTimesPropagator::new(a, b, c);
    assert_eq!(p.propagate(&mut store), PropagationStatus::Failure);
}

#[test]
fn min_cuts_result_to_operand_bounds() {
    let mut store = DomainStore::new();
    let a = store.new_variable(IntDomain::new(2, 5));
    let b = store.new_variable(IntDomain::new(4, 9));
    let c = store.new_variable(IntDomain::new(0, 10));
    let mut p = IntMinMaxPropagator::new(a, b, c, IntMinMaxOp::Min);
    assert_eq!(p.propagate(&mut store), PropagationStatus::OkChanged);
    assert_eq!(store.min(c), Some(2));
    assert_eq!(store.max(c), Some(5));
}

#[test]
fn max_with_dominated_operand_syncs_result() {
    let mut store = DomainStore::new();
    let a = store.new_variable(IntDomain::new(1, 3));
    let b = store.new_variable(IntDomain::new(5, 8));
    let c = store.new_variable(IntDomain::new(0, 7));
    let mut p = IntMinMaxPropagator::new(a, b, c, IntMinMaxOp::Max);
    assert_eq!(p.propagate(&mut store), PropagationStatus::OkChanged);
    assert_eq!(store.values(c), vec![5, 6, 7]);
    assert_eq!(store.values(b), vec![5, 6, 7]);
}

#[test]
fn prunes_invalid_sequence() {
    let mut store = DomainStore::new();
    let a = store.new_variable(IntDomain::new(1, 2));
    let b = store.new_variable(IntDomain::new(1, 2));
    let transitions = vec![vec![2, 0], vec![0, 2]];
    let mut p = RegularPropagator::new(vec![a, b], 2, transitions, 1, &[2]);
    let status = p.propagate(&mut store);
    assert_ne!(status, PropagationStatus::Failure);
}

#[test]
fn regular_keeps_only_accepted_symbols() {
    let mut store = DomainStore::new();
    let a = store.new_variable(IntDomain::new(1, 2));
    let b = store.new_variable(IntDomain::new(1, 2));
    // From state 1 only symbol 1 leads to state 2; state 2 accepts and loops on symbol 2.
    let transitions = vec![vec![2, 0], vec![0, 2]];
    let mut p = RegularPropagator::new(vec![a, b], 2, transitions, 1, &[2]);
    assert_eq!(p.tuples, vec![vec![1, 2]]);
    assert_eq!(p.propagate(&mut store), PropagationStatus::OkChanged);
    assert_eq!(store.values(a), vec![1]);
    assert_eq!(store.values(b), vec![2]);
}

#[test]
fn regular_words_read_every_symbol() {
    let transitions = vec![vec![2, 0], vec![0, 2]];
    assert_eq!(enumerate_accepting_tuples(2, 2, &transitions, 1, &[2]), vec![vec![1, 2]]);
    assert_eq!(enumerate_accepting_tuples(3, 2, &transitions, 1, &[2]), vec![vec![1, 2, 2]]);
    assert_eq!(enumerate_accepting_tuples(0, 2, &transitions, 1, &[2]), Vec::<Vec<i32>>::new());
    assert_eq!(enumerate_accepting_tuples(0, 2, &transitions, 2, &[2]), vec![Vec::<i32>::new()]);
    assert_eq!(enumerate_accepting_tuples(1, 2, &transitions, 0, &[2]), Vec::<Vec<i32>>::new());
}

#[test]
fn regular_without_fitting_word_fails() {
    let mut store = DomainStore::new();
    let a = store.new_variable(IntDomain::new(1, 2));
    let b = store.new_variable(IntDomain::fix(1));
    let transitions = vec![vec![2, 0], vec![0, 2]];
    let mut p = RegularPropagator::new(vec![a, b], 2, transitions, 1, &[2]);
    assert_eq!(p.propagate(&mut store), PropagationStatus::Failure);
    assert_eq!(store.values(a), vec![1, 2]);
}

#[test]
fn linear_sum_tightens_result_and_summands() {
    let mut store = DomainStore::new();
    let l = store.new_variable(IntDomain::new(1, 3));
    let r = store.new_variable(IntDomain::new(2, 4));
    let s = store.new_variable(IntDomain::new(0, 5));
    let mut p = LinearEqPropagator::new(l, r, s);
    assert_eq!(p.propagate(&mut store), PropagationStatus::OkChanged);
    assert_eq!(store.values(s), vec![3, 4, 5]);
    assert_eq!(store.values(l), vec![1, 2, 3]);
    assert_eq!(store.values(r), vec![2, 3, 4]);
}

#[test]
fn linear_sum_fixed_pair_fixes_third() {
    let mut store = DomainStore::new();
    let l = store.new_variable(IntDomain::new(0, 10));
    let r = store.new_variable(IntDomain::fix(4));
    let s = store.new_variable(IntDomain::fix(9));
    let mut p = LinearEqPropagator::new(l, r, s);
    assert_eq!(p.propagate(&mut store), PropagationStatus::OkChanged);
    assert_eq!(store.fixed_value(l), Some(5));
}

#[test]
fn linear_sum_out_of_reach_fails() {
    let mut store = DomainStore::new();
    let l = store.new_variable(IntDomain::new(0, 1));
    let r = store.new_variable(IntDomain::new(0, 1));
    let s = store.new_variable(IntDomain::new(5, 6));
    let mut p = LinearEqPropagator::new(l, r, s);
    assert_eq!(p.propagate(&mut store), PropagationStatus::Failure);
}

#[test]
fn forces_improvement_when_one_objective_is_stuck() {
    let mut store = DomainStore::new();
    let x = store.new_variable(IntDomain::new(1, 3));
    let y = store.new_variable(IntDomain::new(1, 3));
    let mut p = IntDominanceCutPropagator::new(vec![
        (x, DominanceCutDirection::Minimize, 1),
        (y, DominanceCutDirection::Minimize, 3),
    ]);
    assert_eq!(p.propagate(&mut store), PropagationStatus::OkChanged);
    assert_eq!(store.max(y), Some(2));
    assert_eq!(store.min(x), Some(1));
}

#[test]
fn dominance_cut_without_improvable_objective_fails() {
    let mut store = DomainStore::new();
    let x = store.new_variable(IntDomain::new(4, 6));
    let y = store.new_variable(IntDomain::new(1, 3));
    let mut p = IntDominanceCutPropagator::new(vec![
        (x, DominanceCutDirection::Minimize, 4),
        (y, DominanceCutDirection::Maximize, 3),
    ]);
    assert_eq!(p.propagate(&mut store), PropagationStatus::Failure);
}

#[test]
fn dominance_cut_with_two_open_objectives_waits() {
    let mut store = DomainStore::new();
    let x = store.new_variable(IntDomain::new(1, 6));
    let y = store.new_variable(IntDomain::new(1, 6));
    let mut p = IntDominanceCutPropagator::new(vec![
        (x, DominanceCutDirection::Minimize, 4),
        (y, DominanceCutDirection::Maximize, 3),
        (x, DominanceCutDirection::Maximize, 2),
    ]);
    assert_eq!(p.watched_variables().len(), 2);
    assert_eq!(p.propagate(&mut store), PropagationStatus::OkNoChange);
    assert_eq!(store.values(x), vec![1, 2, 3, 4, 5, 6]);
}

#[test]
fn maximize_cut_raises_lower_bound() {
    let mut store = DomainStore::new();
    let x = store.new_variable(IntDomain::new(1, 6));
    let mut p = IntDominanceCutPropagator::new(vec![(x, DominanceCutDirection::Maximize, 4)]);
    assert_eq!(p.propagate(&mut store), PropagationStatus::OkChanged);
    assert_eq!(store.values(x), vec![5, 6]);
}

#[test]
fn reified_eq_fixed_operands_decide() {
    let mut store = DomainStore::new();
    let left = store.new_variable(IntDomain::fix(5));
    let right = store.new_variable(IntDomain::fix(5));
    let reif = store.new_variable(IntDomain::new(0, 1));
    let mut p = ReifiedEqualityPropagator::new(left, right, reif);
    assert_eq!(p.propagate(&mut store), PropagationStatus::OkChanged);
    assert_eq!(store.fixed_value(reif), Some(1));
}

#[test]
fn reified_eq_disjoint_bounds_decide_false() {
    let mut store = DomainStore::new();
    let left = store.new_variable(IntDomain::new(1, 2));
    let right = store.new_variable(IntDomain::new(4, 9));
    let reif = store.new_variable(IntDomain::new(0, 1));
    let mut p = ReifiedEqualityPropagator::new(left, right, reif);
    assert_eq!(p.propagate(&mut store), PropagationStatus::OkChanged);
    assert_eq!(store.fixed_value(reif), Some(0));
}

#[test]
fn reified_ne_true_removes_fixed_value() {
    let mut store = DomainStore::new();
    let left = store.new_variable(IntDomain::new(1, 3));
    let right = store.new_variable(IntDomain::fix(2));
    let reif = store.new_variable(IntDomain::fix(1));
    let mut p = ReifiedNotEqualPropagator::new(left, right, reif);
    assert_eq!(p.propagate(&mut store), PropagationStatus::OkChanged);
    assert_eq!(store.values(left), vec![1, 3]);
}

#[test]
fn reified_ne_false_equates_operands() {
    let mut store = DomainStore::new();
    let left = store.new_variable(IntDomain::new(1, 9));
    let right = store.new_variable(IntDomain::new(4, 6));
    let reif = store.new_variable(IntDomain::fix(0));
    let mut p = ReifiedNotEqualPropagator::new(left, right, reif);
    assert_eq!(p.propagate(&mut store), PropagationStatus::OkChanged);
    assert_eq!(store.values(left), vec![4, 5, 6]);
}

#[test]
fn reified_empty_reif_fails() {
    let mut store = DomainStore::new();
    let left = store.new_variable(IntDomain::new(1, 9));
    let right = store.new_variable(IntDomain::new(4, 6));
    let reif = store.new_variable(IntDomain::empty());
    let mut p = ReifiedLessThanPropagator::new(left, right, reif);
    assert_eq!(p.propagate(&mut store), PropagationStatus::Failure);
}

#[test]
fn hopcroft_karp_returns_maximum_size() {
    let adj1 = vec![vec![0usize]; 3];
    assert_eq!(hopcroft_karp(&adj1, 3, 2), 1);
    let adj2 = vec![vec![0usize, 1], vec![0], vec![1]];
    assert_eq!(hopcroft_karp(&adj2, 3, 2), 2);
    // A greedy first match of left 0 to right 0 must be undone to reach three.
    let adj3 = vec![vec![0usize, 1], vec![0], vec![1, 2]];
    assert_eq!(hopcroft_karp(&adj3, 3, 3), 3);
    assert_eq!(hopcroft_karp(&Vec::<Vec<usize>>::new(), 0, 4), 0);
}

#[test]
fn perfect_matching_decides_distinct_choice() {
    let mut store = DomainStore::new();
    let a = store.new_variable(IntDomain::fix(1));
    let b = store.new_variable(IntDomain::fix(1));
    let c = store.new_variable(IntDomain::new(1, 2));
    assert!(has_perfect_matching(&store, &vec![]));
    assert!(!has_perfect_matching(&store, &vec![a, b]));
    assert!(has_perfect_matching(&store, &vec![a, c]));
    assert!(value_in_some_matching(&store, &vec![a, c], c, 2));
    assert!(!value_in_some_matching(&store, &vec![a, c], c, 1));
}

#[test]
fn unsupported_values_keeps_every_supported_value() {
    let mut store = DomainStore::new();
    let x = store.new_variable(IntDomain::new(1, 2));
    let y = store.new_variable(IntDomain::new(2, 3));
    assert_eq!(remove_unsupported_values(&mut store, &vec![x, y]), Ok(false));
    assert_eq!(store.values(x), vec![1, 2]);
    assert_eq!(store.values(y), vec![2, 3]);
}

#[test]
fn unsupported_values_removes_exactly_the_unsupported() {
    let mut store = DomainStore::new();
    let x = store.new_variable(IntDomain::new(1, 2));
    let y = store.new_variable(IntDomain::fix(1));
    let z = store.new_variable(IntDomain::new(1, 4));
    assert_eq!(remove_unsupported_values(&mut store, &vec![x, y, z]), Ok(true));
    assert_eq!(store.values(x), vec![2]);
    assert_eq!(store.values(y), vec![1]);
    assert_eq!(store.values(z), vec![3, 4]);
}

#[test]
fn unsupported_values_fails_without_distinct_choice() {
    let mut store = DomainStore::new();
    let x = store.new_variable(IntDomain::new(1, 2));
    let y = store.new_variable(IntDomain::new(1, 2));
    let z = store.new_variable(IntDomain::new(1, 2));
    assert_eq!(remove_unsupported_values(&mut store, &vec![x, y, z]), Err(()));
    assert_eq!(store.values(z), vec![1, 2]);
    assert_eq!(propagate_matching(&mut store, &vec![x, y, z]), Err(()));
}

#[test]
fn all_different_fails_only_without_distinct_choice() {
    let mut store = DomainStore::new();
    let x = store.new_variable(IntDomain::new(1, 2));
    let y = store.new_variable(IntDomain::new(1, 2));
    let z = store.new_variable(IntDomain::new(1, 3));
    let mut p = AllDifferentPropagator::new(vec![x, y, z]);
    assert_eq!(p.propagate(&mut store), PropagationStatus::OkChanged);
    assert_eq!(store.values(z), vec![3]);
    let w = store.new_variable(IntDomain::new(1, 3));
    let mut q = AllDifferentPropagator::new(vec![x, y, z, w]);
    assert_eq!(q.propagate(&mut store), PropagationStatus::Failure);
}

#[test]
fn circuit_fails_only_without_distinct_successors() {
    let mut store = DomainStore::new();
    let s0 = store.new_variable(IntDomain::new(0, 2));
    let s1 = store.new_variable(IntDomain::new(0, 2));
    let s2 = store.new_variable(IntDomain::new(0, 2));
    let mut p = CircuitPropagator::new(vec![s0, s1, s2]);
    assert_ne!(p.propagate(&mut store), PropagationStatus::Failure);
    assert_eq!(store.values(s0), vec![1, 2]);
    let mut store2 = DomainStore::new();
    let t0 = store2.new_variable(IntDomain::fix(1));
    let t1 = store2.new_variable(IntDomain::new(0, 1));
    let t2 = store2.new_variable(IntDomain::fix(1));
    let mut q = CircuitPropagator::new(vec![t0, t1, t2]);
    assert_eq!(q.propagate(&mut store2), PropagationStatus::Failure);
}

#[test]
fn times_cuts_factor_by_fixed_other_factor() {
    let mut store = DomainStore::new();
    let a = store.new_variable(IntDomain::fix(3));
    let b = store.new_variable(IntDomain::new(1, 10));
    let c = store.new_variable(IntDomain::new(12, 15));
    let mut p = IntTimesPropagator::new(a, b, c);
    assert_eq!(p.propagate(&mut store), PropagationStatus::OkChanged);
    assert_eq!(store.values(b), vec![4, 5]);
    assert_eq!(store.values(c), vec![12, 13, 14, 15]);
}

#[test]
fn non_zero_product_removes_zero_bound_of_factors() {
    let mut store = DomainStore::new();
    let a = store.new_variable(IntDomain::new(0, 5));
    let b = store.new_variable(IntDomain::new(0, 3));
    let c = store.new_variable(IntDomain::new(2, 10));
    let mut p = IntTimesPropagator::new(a, b, c);
    assert_ne!(p.propagate(&mut store), PropagationStatus::Failure);
    assert!(!store.contains(a, 0));
    assert!(!store.contains(b, 0));
    assert!(store.contains(a, 1));
    assert!(store.contains(b, 2));
}

#[test]
fn product_solutions_kept_beside_an_empty_domain() {
    let mut store = DomainStore::new();
    let empty = store.new_variable(IntDomain::empty());
    let a = store.new_variable(IntDomain::new(-2, 3));
    let b = store.new_variable(IntDomain::new(1, 4));
    let c = store.new_variable(IntDomain::new(-8, 12));
    let mut p = IntTimesPropagator::new(a, b, c);
    assert_ne!(p.propagate(&mut store), PropagationStatus::Failure);
    // a = 3, b = 4, c = 12 and a = -2, b = 4, c = -8 are solutions.
    assert!(store.contains(a, 3) && store.contains(b, 4) && store.contains(c, 12));
    assert!(store.contains(a, -2) && store.contains(c, -8));
    assert!(store.is_empty(empty));
}
