use propaga_propagators::diffn::{DiffnPropagator, RectangleSpec};
use propaga_propagators::disjunctive::{DisjunctivePropagator, DisjunctiveTask};
use propaga_propagators::domain::{DomainStore, IntDomain, PropagationStatus, VariableId};
use propaga_propagators::dominance_cut::{DominanceCutDirection, IntDominanceCutPropagator};
use propaga_propagators::element::{
    propagate_element_to_value, propagate_index, propagate_value_bounds, tighten_equal, ElementPropagator,
};
use propaga_propagators::gcc::{
    collect_values, propagate_bounds, CardinalityBound, GlobalCardinalityPropagator,
};
use propaga_propagators::all_different::AllDifferentPropagator;
use propaga_propagators::circuit::CircuitPropagator;
use propaga_propagators::cumulative::{
    collect_edge_finding_tasks, collect_mandatory_contributions, cumulative_conflict_literals, domain_values,
    energy_overload_literals, forbid_task_during, mandatory_overload_literals, propagate_edge_finding,
    propagate_precedence, propagate_time_table, time_table_excess_literals, CumulativePropagator,
};
use propaga_propagators::scheduling::TaskSpec;
use propaga_propagators::matching::{
    apply_regin_pruning, build_bipartite_graph, build_regin_value_graph, has_perfect_matching, hopcroft_karp,
    hopcroft_karp_matching, regin_supports_value, remove_unsupported_values, tarjan_scc, value_in_some_matching,
    BipartiteGraph,
};
use propaga_propagators::inverse::InversePropagator;
use propaga_propagators::equality::{propagate_equal, EqualityPropagator};
use propaga_propagators::int_abs::IntAbsPropagator;
use propaga_propagators::int_div::IntDivPropagator;
use propaga_propagators::int_minmax::{IntMinMaxOp, IntMinMaxPropagator};
use propaga_propagators::int_mod::IntModPropagator;
use propaga_propagators::less_equal::LessEqualPropagator;
use propaga_propagators::less_than::LessThanPropagator;
use propaga_propagators::clause::ClausePropagator;
use propaga_propagators::nogood::{NogoodLiteral, NogoodPropagator};
use propaga_propagators::linear_scalar::{
    propagate_scalar_ge, propagate_scalar_le, propagate_scalar_not_eq, LinearScalarGePropagator,
    LinearScalarLePropagator, ReifiedScalarEqPropagator, ReifiedScalarGePropagator, ReifiedScalarLePropagator,
};
use propaga_propagators::linear_eq::{propagate_from_result, propagate_sum_bounds, LinearEqPropagator};
use propaga_propagators::reified::{
    always_less_equal, always_less_than, domains_disjoint, domains_equal, never_less_equal, never_less_than, propagate_greater_equal, propagate_greater_than,
    propagate_less_equal, propagate_less_than, ReifiedEqualityPropagator, ReifiedLessEqualPropagator,
    ReifiedLessThanPropagator, ReifiedNotEqualPropagator,
};
use std::collections::BTreeMap;
use std::ops::{Deref, DerefMut};

/// A propagator run by the test engine.
trait Prop {
    fn run(&mut self, store: &mut DomainStore) -> PropagationStatus;
}

impl Prop for LessEqualPropagator {
    fn run(&mut self, store: &mut DomainStore) -> PropagationStatus {
        self.propagate(store)
    }
}
impl Prop for LessThanPropagator {
    fn run(&mut self, store: &mut DomainStore) -> PropagationStatus {
        self.propagate(store)
    }
}
impl Prop for EqualityPropagator {
    fn run(&mut self, store: &mut DomainStore) -> PropagationStatus {
        self.propagate(store)
    }
}
impl Prop for IntAbsPropagator {
    fn run(&mut self, store: &mut DomainStore) -> PropagationStatus {
        self.propagate(store)
    }
}
impl Prop for IntMinMaxPropagator {
    fn run(&mut self, store: &mut DomainStore) -> PropagationStatus {
        self.propagate(store)
    }
}
impl Prop for IntDivPropagator {
    fn run(&mut self, store: &mut DomainStore) -> PropagationStatus {
        self.propagate(store)
    }
}
impl Prop for IntModPropagator {
    fn run(&mut self, store: &mut DomainStore) -> PropagationStatus {
        self.propagate(store)
    }
}
impl Prop for LinearEqPropagator {
    fn run(&mut self, store: &mut DomainStore) -> PropagationStatus {
        self.propagate(store)
    }
}
impl Prop for IntDominanceCutPropagator {
    fn run(&mut self, store: &mut DomainStore) -> PropagationStatus {
        self.propagate(store)
    }
}
impl Prop for DiffnPropagator {
    fn run(&mut self, store: &mut DomainStore) -> PropagationStatus {
        self.propagate(store)
    }
}
impl Prop for DisjunctivePropagator {
    fn run(&mut self, store: &mut DomainStore) -> PropagationStatus {
        self.propagate(store)
    }
}

impl Prop for ReifiedEqualityPropagator {
    fn run(&mut self, store: &mut DomainStore) -> PropagationStatus {
        self.propagate(store)
    }
}
impl Prop for ReifiedLessEqualPropagator {
    fn run(&mut self, store: &mut DomainStore) -> PropagationStatus {
        self.propagate(store)
    }
}
impl Prop for ReifiedLessThanPropagator {
    fn run(&mut self, store: &mut DomainStore) -> PropagationStatus {
        self.propagate(store)
    }
}
impl Prop for ReifiedNotEqualPropagator {
    fn run(&mut self, store: &mut DomainStore) -> PropagationStatus {
        self.propagate(store)
    }
}

impl Prop for NogoodPropagator {
    fn run(&mut self, store: &mut DomainStore) -> PropagationStatus {
        self.propagate(store)
    }
}
impl Prop for ClausePropagator {
    fn run(&mut self, store: &mut DomainStore) -> PropagationStatus {
        self.propagate(store)
    }
}

impl Prop for LinearScalarLePropagator {
    fn run(&mut self, store: &mut DomainStore) -> PropagationStatus {
        self.propagate(store)
    }
}
impl Prop for LinearScalarGePropagator {
    fn run(&mut self, store: &mut DomainStore) -> PropagationStatus {
        self.propagate(store)
    }
}
impl Prop for ReifiedScalarLePropagator {
    fn run(&mut self, store: &mut DomainStore) -> PropagationStatus {
        self.propagate(store)
    }
}
impl Prop for ReifiedScalarGePropagator {
    fn run(&mut self, store: &mut DomainStore) -> PropagationStatus {
        self.propagate(store)
    }
}
impl Prop for ReifiedScalarEqPropagator {
    fn run(&mut self, store: &mut DomainStore) -> PropagationStatus {
        self.propagate(store)
    }
}

impl Prop for ElementPropagator {
    fn run(&mut self, store: &mut DomainStore) -> PropagationStatus {
        self.propagate(store)
    }
}

impl Prop for GlobalCardinalityPropagator {
    fn run(&mut self, store: &mut DomainStore) -> PropagationStatus {
        self.propagate(store)
    }
}

impl Prop for AllDifferentPropagator {
    fn run(&mut self, store: &mut DomainStore) -> PropagationStatus {
        self.propagate(store)
    }
}
impl Prop for CircuitPropagator {
    fn run(&mut self, store: &mut DomainStore) -> PropagationStatus {
        self.propagate(store)
    }
}

impl Prop for CumulativePropagator {
    fn run(&mut self, store: &mut DomainStore) -> PropagationStatus {
        self.propagate(store)
    }
}
impl Prop for InversePropagator {
    fn run(&mut self, store: &mut DomainStore) -> PropagationStatus {
        self.propagate(store)
    }
}

/// Number of values of a domain.
trait Size {
    fn size(&self) -> usize;
}

impl Size for IntDomain {
    fn size(&self) -> usize {
        self.values().len()
    }
}

/// A domain handed to [`Engine::set_domain`].
enum AnyDomain {
    Int(HybridDomain),
}

/// An integer domain handed to [`Engine::set_domain`].
enum HybridDomain {
    Interval(IntDomain),
}

/// Builds interval domains.
struct IntervalDomain;

impl IntervalDomain {
    fn new(lo: i32, hi: i32) -> IntDomain {
        IntDomain::new(lo, hi)
    }
    fn fix(value: i32) -> IntDomain {
        IntDomain::fix(value)
    }
}

/// Removes a value from a domain that is being built.
trait Remove {
    fn remove(self, value: i32) -> IntDomain;
}

impl Remove for IntDomain {
    fn remove(self, value: i32) -> IntDomain {
        self.without(value)
    }
}

/// Views a domain as an integer domain.
trait AsInt {
    fn as_int(&self) -> Option<&IntDomain>;
}

impl AsInt for IntDomain {
    fn as_int(&self) -> Option<&IntDomain> {
        Some(self)
    }
}

/// Runs propagators over a store until none changes it.
struct Engine {
    store: DomainStore,
    props: Vec<Box<dyn Prop>>,
}

impl Engine {
    fn new() -> Engine {
        Engine { store: DomainStore::new(), props: Vec::new() }
    }
    fn new_variable(&mut self, domain: IntDomain) -> VariableId {
        self.store.new_variable(domain)
    }
    fn add_propagator(&mut self, p: Box<dyn Prop>) {
        self.props.push(p);
    }
    fn snapshot(&self) -> Vec<Vec<i32>> {
        (0..self.store.len()).map(|i| self.store.values(VariableId { index: i })).collect()
    }
    fn propagate_all(&mut self) -> Result<PropagationStatus, String> {
        let mut any = false;
        loop {
            let before = self.snapshot();
            for p in self.props.iter_mut() {
                match p.run(&mut self.store) {
                    PropagationStatus::Failure => return Ok(PropagationStatus::Failure),
                    PropagationStatus::OkChanged => any = true,
                    PropagationStatus::OkNoChange => {}
                }
            }
            if self.snapshot() == before {
                break;
            }
        }
        Ok(if any { PropagationStatus::OkChanged } else { PropagationStatus::OkNoChange })
    }
    fn commit_initial_propagation(&mut self) -> Result<PropagationStatus, String> {
        self.propagate_all()
    }
    fn fix_variable(&mut self, var: VariableId, value: i32) -> Result<PropagationStatus, String> {
        if !self.store.contains(var, value) {
            return Ok(PropagationStatus::Failure);
        }
        self.store.restrict(var, value, value);
        self.propagate_all()
    }
    fn set_domain(&mut self, var: VariableId, domain: AnyDomain) {
        let AnyDomain::Int(HybridDomain::Interval(d)) = domain;
        let mut replacement = Some(d);
        let mut store = DomainStore::new();
        for i in 0..self.store.len() {
            let dom = if i == var.index {
                replacement.take().unwrap()
            } else {
                domain_of(&self.store.values(VariableId { index: i }))
            };
            store.new_variable(dom);
        }
        self.store = store;
    }
    fn trail_mark(&mut self) {}
    fn is_solved(&self) -> bool {
        (0..self.store.len()).all(|i| self.store.values(VariableId { index: i }).len() == 1)
    }
    fn hybrid_domain(&self, var: VariableId) -> &IntDomain {
        self.store.domain(var)
    }
    fn domain(&self, var: VariableId) -> &IntDomain {
        self.store.domain(var)
    }
}

/// The store of an engine, for running one propagator directly.
#[allow(non_snake_case)]
fn MutEngine(engine: &mut Engine) -> &mut DomainStore {
    &mut engine.store
}

/// The store of an engine, for reading it directly.
#[allow(non_snake_case)]
fn ReadOnlyEngine(engine: &Engine) -> &DomainStore {
    &engine.store
}

/// Checks that Régin's test agrees with the matching-based support test on every value.
fn assert_regin_agrees_with_hk(engine: &mut Engine, vars: &[VariableId]) {
    let vars: Vec<VariableId> = vars.to_vec();
    let graph = {
        let ctx = ReadOnlyEngine(engine);
        let graph = build_bipartite_graph(&ctx, &vars);
        if hopcroft_karp(&graph.adj, vars.len(), graph.value_count) != vars.len() {
            return;
        }
        graph
    };
    let (pair_left, pair_right) = hopcroft_karp_matching(&graph.adj, vars.len(), graph.value_count);
    let components = {
        let ctx = ReadOnlyEngine(engine);
        let value_graph = build_regin_value_graph(&ctx, &vars, &graph, &pair_left);
        tarjan_scc(&value_graph, graph.value_count)
    };

    let ctx = ReadOnlyEngine(engine);
    for (left, &var) in vars.iter().enumerate() {
        let matched = pair_left[left].expect("matched");
        for value in collect_values(&ctx, var) {
            let hk = value_in_some_matching(&ctx, &vars, var, value);
            let value_idx = graph.value_index[&value];
            let scc = regin_supports_value(value_idx, matched, &pair_right, components[matched], &components);
            assert_eq!(hk, scc, "mismatch for var {var:?} value {value}");
        }
    }
}

/// A store built from explicit value lists.
struct MockIntCtx {
    values: BTreeMap<usize, Vec<i32>>,
    store: DomainStore,
}

fn domain_of(values: &[i32]) -> IntDomain {
    if values.is_empty() {
        return IntDomain::empty();
    }
    let lo = *values.iter().min().unwrap();
    let hi = *values.iter().max().unwrap();
    let mut d = IntDomain::new(lo, hi);
    for v in lo..=hi {
        if !values.contains(&v) {
            d = d.without(v);
        }
    }
    d
}

impl MockIntCtx {
    fn new() -> MockIntCtx {
        MockIntCtx { values: BTreeMap::new(), store: DomainStore::new() }
    }
    fn rebuild(mut self) -> MockIntCtx {
        let mut store = DomainStore::new();
        let n = self.values.keys().max().map(|k| k + 1).unwrap_or(0);
        for i in 0..n {
            let vals = self.values.get(&i).cloned().unwrap_or_default();
            store.new_variable(domain_of(&vals));
        }
        self.store = store;
        self
    }
    fn with_domain(mut self, var: VariableId, values: Vec<i32>) -> MockIntCtx {
        self.values.insert(var.index, values);
        self.rebuild()
    }
    fn with_fixed(mut self, var: VariableId, value: i32) -> MockIntCtx {
        self.values.insert(var.index, vec![value]);
        self.rebuild()
    }
    fn with_open_singleton(self, var: VariableId, value: i32) -> MockIntCtx {
        self.with_fixed(var, value)
    }
    fn values_of(&self, var: &VariableId) -> Vec<i32> {
        self.store.values(*var)
    }
    fn domain_values(&self, var: VariableId) -> Vec<i32> {
        self.store.values(var)
    }
}

impl Deref for MockIntCtx {
    type Target = DomainStore;
    fn deref(&self) -> &DomainStore {
        &self.store
    }
}

impl DerefMut for MockIntCtx {
    fn deref_mut(&mut self) -> &mut DomainStore {
        &mut self.store
    }
}

// ---- less_equal.rs
#[test]
fn less_equal_fixed_right_tightens_left_upper_bound() {
    let mut engine = Engine::new();
    let left = engine.new_variable(IntervalDomain::new(1, 10));
    let right = engine.new_variable(IntervalDomain::fix(4));
    engine.add_propagator(Box::new(LessEqualPropagator::new(left, right)));

    engine.propagate_all().unwrap();
    assert_eq!(engine.hybrid_domain(left).max(), Some(4));
}

#[test]
fn less_equal_fixed_left_tightens_right_lower_bound() {
    let mut engine = Engine::new();
    let left = engine.new_variable(IntervalDomain::fix(6));
    let right = engine.new_variable(IntervalDomain::new(1, 10));
    engine.add_propagator(Box::new(LessEqualPropagator::new(left, right)));

    engine.propagate_all().unwrap();
    assert_eq!(engine.hybrid_domain(right).min(), Some(6));
}

#[test]
fn fixed_left_tightens_right_when_bounds_already_satisfied() {
    let mut engine = Engine::new();
    let left = engine.new_variable(IntervalDomain::new(6, 6));
    let right = engine.new_variable(IntervalDomain::new(1, 10));
    engine.add_propagator(Box::new(LessEqualPropagator::new(left, right)));
    assert_eq!(
        engine.propagate_all().unwrap(),
        PropagationStatus::OkChanged
    );
    assert_eq!(engine.hybrid_domain(right).min(), Some(6));
}

#[test]
fn fixed_right_tightens_left_when_bounds_already_satisfied() {
    let mut engine = Engine::new();
    let left = engine.new_variable(IntervalDomain::new(1, 10));
    let right = engine.new_variable(IntervalDomain::new(4, 4));
    engine.add_propagator(Box::new(LessEqualPropagator::new(left, right)));
    assert_eq!(
        engine.propagate_all().unwrap(),
        PropagationStatus::OkChanged
    );
    assert_eq!(engine.hybrid_domain(left).max(), Some(4));
}

#[test]
fn empty_domain_returns_failure() {
    let mut engine = Engine::new();
    let left = engine.new_variable(IntervalDomain::new(1, 0));
    let right = engine.new_variable(IntervalDomain::new(1, 5));
    engine.add_propagator(Box::new(LessEqualPropagator::new(left, right)));
    assert_eq!(engine.propagate_all().unwrap(), PropagationStatus::Failure);
}

#[test]
fn fixed_literals_mark_changed_via_engine() {
    let mut engine = Engine::new();
    let left = engine.new_variable(IntervalDomain::new(1, 3));
    let right = engine.new_variable(IntervalDomain::fix(1));
    engine.add_propagator(Box::new(LessEqualPropagator::new(left, right)));
    assert_eq!(
        engine.propagate_all().unwrap(),
        PropagationStatus::OkChanged
    );
    assert_eq!(engine.hybrid_domain(left).max(), Some(1));
}

#[test]
fn propagation_empties_domain_returns_failure() {
    let mut engine = Engine::new();
    let left = engine.new_variable(IntervalDomain::new(5, 6));
    let right = engine.new_variable(IntervalDomain::fix(2));
    engine.add_propagator(Box::new(LessEqualPropagator::new(left, right)));
    assert_eq!(engine.propagate_all().unwrap(), PropagationStatus::Failure);
}

#[test]
fn less_equal_disjoint_bounds_fail() {
    let mut engine = Engine::new();
    let left = engine.new_variable(IntervalDomain::new(8, 10));
    let right = engine.new_variable(IntervalDomain::new(1, 5));
    engine.add_propagator(Box::new(LessEqualPropagator::new(left, right)));

    let status = engine.propagate_all().unwrap();
    assert_eq!(status, PropagationStatus::Failure);
}

#[test]
fn fixed_left_successfully_tightens_right() {

    let mut engine = Engine::new();
    let left = engine.new_variable(IntervalDomain::fix(2));
    let right = engine.new_variable(IntervalDomain::new(1, 10));
    let mut prop = LessEqualPropagator::new(left, right);
    let mut ctx = MutEngine(&mut engine);
    assert_eq!(prop.propagate(&mut ctx), PropagationStatus::OkChanged);
    assert!(engine.hybrid_domain(right).min().unwrap() >= 2);
}

#[test]
fn fixed_left_no_change_when_right_already_tight() {

    let mut engine = Engine::new();
    let left = engine.new_variable(IntervalDomain::fix(3));
    let right = engine.new_variable(IntervalDomain::new(5, 10));
    let mut prop = LessEqualPropagator::new(left, right);
    let mut ctx = MutEngine(&mut engine);
    assert_eq!(prop.propagate(&mut ctx), PropagationStatus::OkNoChange);
}

#[test]
fn fixed_right_no_change_when_left_already_tight() {

    let mut engine = Engine::new();
    let left = engine.new_variable(IntervalDomain::new(1, 3));
    let right = engine.new_variable(IntervalDomain::fix(5));
    let mut prop = LessEqualPropagator::new(left, right);
    let mut ctx = MutEngine(&mut engine);
    assert_eq!(prop.propagate(&mut ctx), PropagationStatus::OkNoChange);
}

#[test]
fn direct_propagation_empties_domain_fails() {

    let mut engine = Engine::new();
    let left = engine.new_variable(IntervalDomain::new(5, 6));
    let right = engine.new_variable(IntervalDomain::fix(2));
    let mut prop = LessEqualPropagator::new(left, right);
    let mut ctx = MutEngine(&mut engine);
    assert_eq!(prop.propagate(&mut ctx), PropagationStatus::Failure);
}

#[test]
fn less_equal_already_satisfied_no_change() {
    let mut engine = Engine::new();
    let left = engine.new_variable(IntervalDomain::fix(3));
    let right = engine.new_variable(IntervalDomain::fix(5));
    engine.add_propagator(Box::new(LessEqualPropagator::new(left, right)));

    assert_eq!(
        engine.propagate_all().unwrap(),
        PropagationStatus::OkNoChange
    );
}

#[test]
fn mock_fixed_left_marks_changed() {

    let mut engine = Engine::new();
    let left = engine.new_variable(IntervalDomain::new(0, 0));
    let right = engine.new_variable(IntervalDomain::new(0, 0));
    let mut ctx = MockIntCtx::new()
        .with_domain(left, vec![1, 2, 3])
        .with_domain(right, vec![1, 2, 3, 4, 5])
        .with_fixed(left, 2);
    let mut prop = LessEqualPropagator::new(left, right);
    assert_eq!(prop.propagate(&mut ctx), PropagationStatus::OkChanged);
    assert!(ctx.values_of(&right).iter().all(|&v| v >= 2));
}

#[test]
fn mock_fixed_right_marks_changed() {

    let mut engine = Engine::new();
    let left = engine.new_variable(IntervalDomain::new(0, 0));
    let right = engine.new_variable(IntervalDomain::new(0, 0));
    let mut ctx = MockIntCtx::new()
        .with_domain(left, vec![1, 2, 3, 4, 5])
        .with_domain(right, vec![1, 2, 3])
        .with_fixed(right, 4);
    let mut prop = LessEqualPropagator::new(left, right);
    assert_eq!(prop.propagate(&mut ctx), PropagationStatus::OkChanged);
    assert!(!ctx.values_of(&left).contains(&5));
}

#[test]
fn mock_fixed_left_literal_path_marks_changed() {

    let mut engine = Engine::new();
    let left = engine.new_variable(IntervalDomain::new(0, 0));
    let right = engine.new_variable(IntervalDomain::new(0, 0));
    let mut ctx = MockIntCtx::new()
        .with_domain(left, vec![1, 2, 3, 4])
        .with_domain(right, vec![5, 6, 7])
        .with_fixed(left, 6);
    let mut prop = LessEqualPropagator::new(left, right);
    assert_eq!(prop.propagate(&mut ctx), PropagationStatus::OkChanged);
    assert!(!ctx.values_of(&right).contains(&5));
}

#[test]
fn mock_fixed_right_literal_path_marks_changed() {

    let mut engine = Engine::new();
    let left = engine.new_variable(IntervalDomain::new(0, 0));
    let right = engine.new_variable(IntervalDomain::new(0, 0));
    let mut ctx = MockIntCtx::new()
        .with_domain(left, vec![1, 2, 3, 4, 5])
        .with_domain(right, vec![1, 2, 3, 4, 5])
        .with_fixed(right, 3);
    let mut prop = LessEqualPropagator::new(left, right);
    assert_eq!(prop.propagate(&mut ctx), PropagationStatus::OkChanged);
    assert!(!ctx.values_of(&left).contains(&5));
}

#[test]
fn mock_fixed_left_empties_right_domain_fails() {

    let mut engine = Engine::new();
    let left = engine.new_variable(IntervalDomain::new(0, 0));
    let right = engine.new_variable(IntervalDomain::new(0, 0));
    let mut ctx = MockIntCtx::new()
        .with_domain(left, vec![1, 2, 3])
        .with_domain(right, vec![2])
        .with_fixed(left, 3);
    let mut prop = LessEqualPropagator::new(left, right);
    assert_eq!(prop.propagate(&mut ctx), PropagationStatus::Failure);
}

// ---- less_than.rs
#[test]
fn less_than_fixed_right_tightens_left_upper_bound() {
    let mut engine = Engine::new();
    let left = engine.new_variable(IntervalDomain::new(1, 10));
    let right = engine.new_variable(IntervalDomain::fix(4));
    engine.add_propagator(Box::new(LessThanPropagator::new(left, right)));

    engine.propagate_all().unwrap();
    assert_eq!(engine.domain(left).max(), Some(3));
}

#[test]
fn less_than_fixed_left_tightens_right_lower_bound() {
    let mut engine = Engine::new();
    let left = engine.new_variable(IntervalDomain::fix(6));
    let right = engine.new_variable(IntervalDomain::new(1, 10));
    engine.add_propagator(Box::new(LessThanPropagator::new(left, right)));

    engine.propagate_all().unwrap();
    assert_eq!(engine.domain(right).min(), Some(7));
}

#[test]
fn less_than_disjoint_bounds_fail() {
    let mut engine = Engine::new();
    let left = engine.new_variable(IntervalDomain::new(8, 10));
    let right = engine.new_variable(IntervalDomain::new(1, 5));
    engine.add_propagator(Box::new(LessThanPropagator::new(left, right)));

    let status = engine.propagate_all().unwrap();
    assert_eq!(status, PropagationStatus::Failure);
}

// ---- equality.rs
#[test]
fn fixed_left_fixes_right() {
    let mut engine = Engine::new();
    let left = engine.new_variable(IntervalDomain::fix(5));
    let right = engine.new_variable(IntervalDomain::new(1, 10));
    engine.add_propagator(Box::new(EqualityPropagator::new(left, right)));

    engine.propagate_all().unwrap();
    assert_eq!(engine.hybrid_domain(right).fixed_value(), Some(5));
}

#[test]
fn bounds_are_synchronized() {
    let mut engine = Engine::new();
    let left = engine.new_variable(IntervalDomain::new(3, 7));
    let right = engine.new_variable(IntervalDomain::new(1, 10));
    engine.add_propagator(Box::new(EqualityPropagator::new(left, right)));

    engine.propagate_all().unwrap();
    assert_eq!(engine.hybrid_domain(left).min(), Some(3));
    assert_eq!(engine.hybrid_domain(left).max(), Some(7));
    assert_eq!(engine.hybrid_domain(right).min(), Some(3));
    assert_eq!(engine.hybrid_domain(right).max(), Some(7));
}

#[test]
fn fixed_right_fixes_left() {
    let mut engine = Engine::new();
    let left = engine.new_variable(IntervalDomain::new(1, 10));
    let right = engine.new_variable(IntervalDomain::fix(5));
    engine.add_propagator(Box::new(EqualityPropagator::new(left, right)));

    engine.propagate_all().unwrap();
    assert_eq!(engine.hybrid_domain(left).fixed_value(), Some(5));
}

#[test]
fn equality_already_satisfied_no_change() {
    let mut engine = Engine::new();
    let left = engine.new_variable(IntervalDomain::fix(4));
    let right = engine.new_variable(IntervalDomain::fix(4));
    engine.add_propagator(Box::new(EqualityPropagator::new(left, right)));

    assert_eq!(
        engine.propagate_all().unwrap(),
        PropagationStatus::OkNoChange
    );
}

#[test]
fn sync_bounds_from_right_tightens_left() {
    let mut engine = Engine::new();
    let left = engine.new_variable(IntervalDomain::new(0, 10));
    let right = engine.new_variable(IntervalDomain::new(4, 6));
    engine.add_propagator(Box::new(EqualityPropagator::new(left, right)));

    engine.propagate_all().unwrap();
    assert_eq!(engine.hybrid_domain(left).min(), Some(4));
    assert_eq!(engine.hybrid_domain(left).max(), Some(6));
}

#[test]
fn sync_bounds_right_to_left_via_mock_ctx() {

    let mut engine = Engine::new();
    let left = engine.new_variable(IntervalDomain::new(0, 0));
    let right = engine.new_variable(IntervalDomain::new(0, 0));
    let mut ctx = MockIntCtx::new()
        .with_domain(left, vec![4, 5, 6, 10])
        .with_domain(right, vec![4, 5, 6]);
    let mut prop = EqualityPropagator::new(left, right);
    assert_eq!(prop.propagate(&mut ctx), PropagationStatus::OkChanged);
    assert_eq!(ctx.values_of(&left).as_slice(), &[4, 5, 6]);
}

#[test]
fn propagate_equal_direct_helper_tightens_both_operands() {

    let mut engine = Engine::new();
    let left = engine.new_variable(IntervalDomain::new(0, 0));
    let right = engine.new_variable(IntervalDomain::new(0, 0));
    let mut ctx = MockIntCtx::new()
        .with_domain(left, vec![4, 5, 6])
        .with_domain(right, vec![4, 5, 6, 10]);
    assert!(propagate_equal(&mut ctx, left, right));
    assert_eq!(ctx.domain_values(left), vec![4, 5, 6]);
    assert_eq!(ctx.domain_values(right), vec![4, 5, 6]);
}

#[test]
fn empty_domain_returns_failure_status() {

    let mut engine = Engine::new();
    let left = engine.new_variable(IntervalDomain::new(0, 0));
    let right = engine.new_variable(IntervalDomain::new(0, 0));
    let mut ctx = MockIntCtx::new()
        .with_domain(left, vec![])
        .with_domain(right, vec![1, 2, 3]);
    let mut prop = EqualityPropagator::new(left, right);
    assert_eq!(prop.propagate(&mut ctx), PropagationStatus::Failure);
}

#[test]
fn propagate_equal_no_change_returns_false() {

    let mut engine = Engine::new();
    let left = engine.new_variable(IntervalDomain::new(0, 0));
    let right = engine.new_variable(IntervalDomain::new(0, 0));
    let mut ctx = MockIntCtx::new()
        .with_domain(left, vec![4, 5, 6])
        .with_domain(right, vec![4, 5, 6]);
    assert!(!propagate_equal(&mut ctx, left, right));
}

#[test]
fn mock_propagate_equal_right_only_tightens_left() {

    let mut engine = Engine::new();
    let left = engine.new_variable(IntervalDomain::new(0, 0));
    let right = engine.new_variable(IntervalDomain::new(0, 0));
    let mut ctx = MockIntCtx::new()
        .with_domain(left, vec![1, 2, 3, 4, 5, 6])
        .with_domain(right, vec![4, 5]);
    assert!(propagate_equal(&mut ctx, left, right));
    assert_eq!(ctx.domain_values(left), vec![4, 5]);
}

#[test]
fn mock_propagate_equal_remove_above_left_from_right_max() {

    let mut engine = Engine::new();
    let left = engine.new_variable(IntervalDomain::new(0, 0));
    let right = engine.new_variable(IntervalDomain::new(0, 0));
    let mut ctx = MockIntCtx::new()
        .with_domain(left, vec![4, 5, 6, 9])
        .with_domain(right, vec![4, 5, 6]);
    assert!(propagate_equal(&mut ctx, left, right));
    assert_eq!(ctx.domain_values(left), vec![4, 5, 6]);
}

// ---- int_abs.rs
#[test]
fn abs_of_negative_interval() {
    let mut engine = Engine::new();
    let a = engine.new_variable(IntervalDomain::new(-5, -2));
    let b = engine.new_variable(IntervalDomain::new(0, 10));
    engine.add_propagator(Box::new(IntAbsPropagator::new(a, b)));
    engine.propagate_all().unwrap();
    assert_eq!(engine.hybrid_domain(b).min(), Some(2));
    assert_eq!(engine.hybrid_domain(b).max(), Some(5));
}

#[test]
fn abs_crossing_zero() {
    let mut engine = Engine::new();
    let a = engine.new_variable(IntervalDomain::new(-3, 4));
    let b = engine.new_variable(IntervalDomain::new(-10, 10));
    engine.add_propagator(Box::new(IntAbsPropagator::new(a, b)));
    engine.propagate_all().unwrap();
    assert_eq!(engine.hybrid_domain(b).min(), Some(0));
    assert_eq!(engine.hybrid_domain(b).max(), Some(4));
}

#[test]
fn abs_equates_when_nonnegative() {
    let mut engine = Engine::new();
    let a = engine.new_variable(IntervalDomain::new(2, 5));
    let b = engine.new_variable(IntervalDomain::new(0, 10));
    engine.add_propagator(Box::new(IntAbsPropagator::new(a, b)));
    engine.propagate_all().unwrap();
    assert_eq!(engine.hybrid_domain(b).min(), Some(2));
    assert_eq!(engine.hybrid_domain(b).max(), Some(5));
}

// ---- int_minmax.rs
#[test]
fn int_minmax_min_tightens_result_upper_bound() {
    let mut engine = Engine::new();
    let a = engine.new_variable(IntervalDomain::new(0, 5));
    let b = engine.new_variable(IntervalDomain::new(1, 3));
    let c = engine.new_variable(IntervalDomain::new(0, 10));
    engine.add_propagator(Box::new(IntMinMaxPropagator::new(
        a,
        b,
        c,
        IntMinMaxOp::Min,
    )));
    engine.propagate_all().unwrap();
    assert_eq!(engine.hybrid_domain(c).max(), Some(3));
}

#[test]
fn int_minmax_max_tightens_result_lower_bound() {
    let mut engine = Engine::new();
    let a = engine.new_variable(IntervalDomain::new(0, 5));
    let b = engine.new_variable(IntervalDomain::new(1, 3));
    let c = engine.new_variable(IntervalDomain::new(-10, 10));
    engine.add_propagator(Box::new(IntMinMaxPropagator::new(
        a,
        b,
        c,
        IntMinMaxOp::Max,
    )));
    engine.propagate_all().unwrap();
    assert_eq!(engine.hybrid_domain(c).min(), Some(1));
}

#[test]
fn int_minmax_min_equates_when_one_operand_dominates() {
    let mut engine = Engine::new();
    let a = engine.new_variable(IntervalDomain::new(5, 6));
    let b = engine.new_variable(IntervalDomain::new(0, 2));
    let c = engine.new_variable(IntervalDomain::new(-10, 10));
    engine.add_propagator(Box::new(IntMinMaxPropagator::new(
        a,
        b,
        c,
        IntMinMaxOp::Min,
    )));
    engine.propagate_all().unwrap();
    assert_eq!(engine.hybrid_domain(c).min(), Some(0));
    assert_eq!(engine.hybrid_domain(c).max(), Some(2));
}

// ---- int_div.rs
#[test]
fn forward_with_fixed_divisor() {
    let mut engine = Engine::new();
    let a = engine.new_variable(IntervalDomain::new(10, 20));
    let b = engine.new_variable(IntervalDomain::fix(3));
    let c = engine.new_variable(IntervalDomain::new(-10, 20));
    engine.add_propagator(Box::new(IntDivPropagator::new(a, b, c)));
    engine.propagate_all().unwrap();
    assert_eq!(engine.hybrid_domain(c).min(), Some(3));
    assert_eq!(engine.hybrid_domain(c).max(), Some(6));
}

#[test]
fn int_div_excludes_zero_divisor() {
    let mut engine = Engine::new();
    let a = engine.new_variable(IntervalDomain::new(1, 5));
    let b = engine.new_variable(IntervalDomain::new(-1, 1));
    let c = engine.new_variable(IntervalDomain::new(-10, 10));
    engine.add_propagator(Box::new(IntDivPropagator::new(a, b, c)));
    engine.propagate_all().unwrap();
    assert!(!engine.hybrid_domain(b).contains(0));
}

#[test]
fn reverse_tightens_dividend() {
    let mut engine = Engine::new();
    let a = engine.new_variable(IntervalDomain::new(0, 100));
    let b = engine.new_variable(IntervalDomain::fix(5));
    let c = engine.new_variable(IntervalDomain::fix(3));
    engine.add_propagator(Box::new(IntDivPropagator::new(a, b, c)));
    engine.propagate_all().unwrap();
    assert_eq!(engine.hybrid_domain(a).min(), Some(15));
    assert_eq!(engine.hybrid_domain(a).max(), Some(19));
}

// ---- int_mod.rs
#[test]
fn remainder_bounds_with_fixed_divisor() {
    let mut engine = Engine::new();
    let a = engine.new_variable(IntervalDomain::new(0, 100));
    let b = engine.new_variable(IntervalDomain::fix(7));
    let c = engine.new_variable(IntervalDomain::new(-20, 20));
    engine.add_propagator(Box::new(IntModPropagator::new(a, b, c)));
    engine.propagate_all().unwrap();
    assert_eq!(engine.hybrid_domain(c).min(), Some(0));
    assert_eq!(engine.hybrid_domain(c).max(), Some(6));
}

#[test]
fn int_mod_excludes_zero_divisor() {
    let mut engine = Engine::new();
    let a = engine.new_variable(IntervalDomain::new(1, 5));
    let b = engine.new_variable(IntervalDomain::new(-1, 1));
    let c = engine.new_variable(IntervalDomain::new(-5, 5));
    engine.add_propagator(Box::new(IntModPropagator::new(a, b, c)));
    engine.propagate_all().unwrap();
    assert!(!engine.hybrid_domain(b).contains(0));
}

#[test]
fn fixed_mod_tightens_dividend() {
    let mut engine = Engine::new();
    let a = engine.new_variable(IntervalDomain::new(0, 30));
    let b = engine.new_variable(IntervalDomain::fix(5));
    let c = engine.new_variable(IntervalDomain::fix(2));
    engine.add_propagator(Box::new(IntModPropagator::new(a, b, c)));
    engine.propagate_all().unwrap();
    assert_eq!(engine.hybrid_domain(a).min(), Some(2));
    assert_eq!(engine.hybrid_domain(a).max(), Some(27));
}

#[test]
fn remainder_bound_uses_largest_divisor() {
    let mut engine = Engine::new();
    let a = engine.new_variable(IntervalDomain::fix(9));
    let b = engine.new_variable(IntervalDomain::new(2, 10));
    let c = engine.new_variable(IntervalDomain::new(0, 20));
    engine.add_propagator(Box::new(IntModPropagator::new(a, b, c)));
    engine.propagate_all().unwrap();
    assert!(engine.hybrid_domain(c).contains(9));
    assert!(engine.hybrid_domain(c).contains(4));
    assert_eq!(engine.hybrid_domain(c).max(), Some(9));
}

#[test]
fn remainder_sign_follows_dividend() {
    let mut engine = Engine::new();
    let a = engine.new_variable(IntervalDomain::fix(-7));
    let b = engine.new_variable(IntervalDomain::fix(3));
    let c = engine.new_variable(IntervalDomain::new(-5, 5));
    engine.add_propagator(Box::new(IntModPropagator::new(a, b, c)));
    let status = engine.propagate_all().unwrap();
    assert_ne!(status, PropagationStatus::Failure);
    assert!(engine.hybrid_domain(c).contains(-1));
}

#[test]
fn fixed_mod_finds_dividend_beyond_first_window() {
    let mut engine = Engine::new();
    let a = engine.new_variable(IntervalDomain::new(-10, 100));
    let b = engine.new_variable(IntervalDomain::fix(5));
    let c = engine.new_variable(IntervalDomain::fix(3));
    engine.add_propagator(Box::new(IntModPropagator::new(a, b, c)));
    let status = engine.propagate_all().unwrap();
    assert_ne!(status, PropagationStatus::Failure);
    assert_eq!(engine.hybrid_domain(a).min(), Some(3));
    assert_eq!(engine.hybrid_domain(a).max(), Some(98));
}

// ---- linear_eq.rs
#[test]
fn bounds_tighten_operands_from_result() {
    let mut engine = Engine::new();
    let left = engine.new_variable(IntervalDomain::new(0, 20));
    let right = engine.new_variable(IntervalDomain::new(0, 20));
    let result = engine.new_variable(IntervalDomain::new(8, 9));
    engine.add_propagator(Box::new(LinearEqPropagator::new(left, right, result)));

    engine.propagate_all().unwrap();
    assert!(engine.hybrid_domain(left).max().unwrap() <= 9);
    assert!(engine.hybrid_domain(right).max().unwrap() <= 9);
    assert!(engine.hybrid_domain(left).min().unwrap() >= 0);
    assert!(engine.hybrid_domain(right).min().unwrap() >= 0);
}

#[test]
fn fixed_result_tightens_both_bounds_on_operands() {
    let mut engine = Engine::new();
    let left = engine.new_variable(IntervalDomain::new(0, 20));
    let right = engine.new_variable(IntervalDomain::new(0, 20));
    let result = engine.new_variable(IntervalDomain::fix(10));
    engine.add_propagator(Box::new(LinearEqPropagator::new(left, right, result)));
    engine.fix_variable(left, 4).unwrap();
    engine.propagate_all().unwrap();
    assert_eq!(engine.hybrid_domain(right).fixed_value(), Some(6));
}

#[test]
fn fixed_operands_fix_result() {
    let mut engine = Engine::new();
    let left = engine.new_variable(IntervalDomain::fix(3));
    let right = engine.new_variable(IntervalDomain::fix(4));
    let result = engine.new_variable(IntervalDomain::new(0, 20));
    engine.add_propagator(Box::new(LinearEqPropagator::new(left, right, result)));

    engine.propagate_all().unwrap();
    assert_eq!(engine.hybrid_domain(result).fixed_value(), Some(7));
}

#[test]
fn bounds_propagate_to_result() {
    let mut engine = Engine::new();
    let left = engine.new_variable(IntervalDomain::new(1, 3));
    let right = engine.new_variable(IntervalDomain::new(2, 4));
    let result = engine.new_variable(IntervalDomain::new(0, 20));
    engine.add_propagator(Box::new(LinearEqPropagator::new(left, right, result)));

    engine.propagate_all().unwrap();
    assert_eq!(engine.hybrid_domain(result).min(), Some(3));
    assert_eq!(engine.hybrid_domain(result).max(), Some(7));
}

#[test]
fn fixed_result_fixes_left() {
    let mut engine = Engine::new();
    let left = engine.new_variable(IntervalDomain::new(0, 20));
    let right = engine.new_variable(IntervalDomain::fix(4));
    let result = engine.new_variable(IntervalDomain::fix(10));
    engine.add_propagator(Box::new(LinearEqPropagator::new(left, right, result)));

    engine.propagate_all().unwrap();
    assert_eq!(engine.hybrid_domain(left).fixed_value(), Some(6));
}

#[test]
fn fixed_result_fixes_right() {
    let mut engine = Engine::new();
    let left = engine.new_variable(IntervalDomain::fix(3));
    let right = engine.new_variable(IntervalDomain::new(0, 20));
    let result = engine.new_variable(IntervalDomain::fix(10));
    engine.add_propagator(Box::new(LinearEqPropagator::new(left, right, result)));

    engine.propagate_all().unwrap();
    assert_eq!(engine.hybrid_domain(right).fixed_value(), Some(7));
}

#[test]
fn linear_eq_already_satisfied_no_change() {
    let mut engine = Engine::new();
    let left = engine.new_variable(IntervalDomain::fix(3));
    let right = engine.new_variable(IntervalDomain::fix(4));
    let result = engine.new_variable(IntervalDomain::fix(7));
    engine.add_propagator(Box::new(LinearEqPropagator::new(left, right, result)));

    assert_eq!(
        engine.propagate_all().unwrap(),
        PropagationStatus::OkNoChange
    );
}

#[test]
fn inconsistent_sum_fails() {
    let mut engine = Engine::new();
    let left = engine.new_variable(IntervalDomain::fix(5));
    let right = engine.new_variable(IntervalDomain::fix(5));
    let result = engine.new_variable(IntervalDomain::fix(9));
    engine.add_propagator(Box::new(LinearEqPropagator::new(left, right, result)));

    assert_eq!(engine.propagate_all().unwrap(), PropagationStatus::Failure);
}

#[test]
fn propagate_sum_bounds_skips_missing_operand_bounds() {

    let mut engine = Engine::new();
    let left = engine.new_variable(IntervalDomain::new(1, 0));
    let right = engine.new_variable(IntervalDomain::new(1, 5));
    let result = engine.new_variable(IntervalDomain::new(0, 20));
    let mut ctx = MutEngine(&mut engine);
    assert!(!propagate_sum_bounds(&mut ctx, left, right, result));
}

#[test]
fn propagate_from_result_tightens_operands() {

    let mut engine = Engine::new();
    let left = engine.new_variable(IntervalDomain::new(0, 20));
    let right = engine.new_variable(IntervalDomain::fix(4));
    let result = engine.new_variable(IntervalDomain::fix(10));
    let mut ctx = MutEngine(&mut engine);
    assert!(propagate_from_result(&mut ctx, left, right, result));
    assert_eq!(engine.hybrid_domain(left).fixed_value(), Some(6));
}

#[test]
fn propagate_from_result_tightens_right_from_fixed_left() {

    let mut engine = Engine::new();
    let left = engine.new_variable(IntervalDomain::fix(4));
    let right = engine.new_variable(IntervalDomain::new(0, 20));
    let result = engine.new_variable(IntervalDomain::fix(10));
    let mut ctx = MutEngine(&mut engine);
    assert!(propagate_from_result(&mut ctx, left, right, result));
    assert_eq!(engine.hybrid_domain(right).fixed_value(), Some(6));
}

#[test]
fn propagate_from_result_tightens_result_from_fixed_operands() {

    let mut engine = Engine::new();
    let left = engine.new_variable(IntervalDomain::fix(3));
    let right = engine.new_variable(IntervalDomain::fix(4));
    let result = engine.new_variable(IntervalDomain::new(0, 20));
    let mut ctx = MutEngine(&mut engine);
    assert!(propagate_from_result(&mut ctx, left, right, result));
    assert_eq!(engine.hybrid_domain(result).fixed_value(), Some(7));
}

// ---- dominance_cut.rs
#[test]
fn cut_leaves_other_pareto_points() {
    let mut engine = Engine::new();
    let x = engine.new_variable(IntervalDomain::new(1, 3));
    let y = engine.new_variable(IntervalDomain::new(1, 3));
    let sum = engine.new_variable(IntervalDomain::fix(4));
    engine.add_propagator(Box::new(LinearEqPropagator::new(x, y, sum)));
    engine.add_propagator(Box::new(IntDominanceCutPropagator::new(vec![
        (x, DominanceCutDirection::Minimize, 1),
        (y, DominanceCutDirection::Minimize, 3),
    ])));
    let status = engine.commit_initial_propagation().unwrap();
    assert!(!status.is_failure());
    assert!(engine.domain(y).as_int().unwrap().max().unwrap() <= 2);
    assert!(engine.domain(x).as_int().unwrap().min().unwrap() >= 2);
}

// ---- diffn.rs
#[test]
fn empty_coordinate_domain_fails() {
    let mut engine = Engine::new();
    let x0 = engine.new_variable(IntervalDomain::new(1, 0));
    let y0 = engine.new_variable(IntervalDomain::new(0, 5));
    let x1 = engine.new_variable(IntervalDomain::new(0, 5));
    let y1 = engine.new_variable(IntervalDomain::new(0, 5));
    engine.add_propagator(Box::new(DiffnPropagator::new(vec![
        RectangleSpec::new(x0, y0, 2, 2),
        RectangleSpec::new(x1, y1, 2, 2),
    ])));
    assert_eq!(engine.propagate_all().unwrap(), PropagationStatus::Failure);
}

#[test]
fn missing_y_bounds_returns_failure() {
    let mut engine = Engine::new();
    let x0 = engine.new_variable(IntervalDomain::new(0, 1));
    let y0 = engine.new_variable(IntervalDomain::new(1, 0));
    let x1 = engine.new_variable(IntervalDomain::new(0, 1));
    let y1 = engine.new_variable(IntervalDomain::new(0, 10));
    engine.add_propagator(Box::new(DiffnPropagator::new(vec![
        RectangleSpec::new(x0, y0, 2, 2),
        RectangleSpec::new(x1, y1, 2, 2),
    ])));
    assert_eq!(engine.propagate_all().unwrap(), PropagationStatus::Failure);
}

#[test]
fn separated_fixed_positions_do_not_fail() {
    let mut engine = Engine::new();
    let x0 = engine.new_variable(IntervalDomain::fix(0));
    let y0 = engine.new_variable(IntervalDomain::fix(0));
    let x1 = engine.new_variable(IntervalDomain::fix(4));
    let y1 = engine.new_variable(IntervalDomain::fix(0));
    engine.add_propagator(Box::new(DiffnPropagator::new(vec![
        RectangleSpec::new(x0, y0, 3, 3),
        RectangleSpec::new(x1, y1, 3, 3),
    ])));
    let status = engine.propagate_all().unwrap();
    assert!(!status.is_failure());
}

#[test]
fn overlapping_x_forces_y_separation() {
    let mut engine = Engine::new();
    let x0 = engine.new_variable(IntervalDomain::new(0, 1));
    let y0 = engine.new_variable(IntervalDomain::new(0, 10));
    let x1 = engine.new_variable(IntervalDomain::new(0, 1));
    let y1 = engine.new_variable(IntervalDomain::new(0, 10));
    engine.add_propagator(Box::new(DiffnPropagator::new(vec![
        RectangleSpec::new(x0, y0, 2, 2),
        RectangleSpec::new(x1, y1, 2, 2),
    ])));

    engine.propagate_all().unwrap();
    assert_eq!(engine.hybrid_domain(y0).min(), Some(9));
    assert_eq!(engine.hybrid_domain(y1).min(), Some(9));
}

#[test]
fn overlapping_y_forces_x_separation() {
    let mut engine = Engine::new();
    let x0 = engine.new_variable(IntervalDomain::new(0, 10));
    let y0 = engine.new_variable(IntervalDomain::new(0, 1));
    let x1 = engine.new_variable(IntervalDomain::new(0, 10));
    let y1 = engine.new_variable(IntervalDomain::new(0, 1));
    engine.add_propagator(Box::new(DiffnPropagator::new(vec![
        RectangleSpec::new(x0, y0, 2, 2),
        RectangleSpec::new(x1, y1, 2, 2),
    ])));

    engine.propagate_all().unwrap();
    assert_eq!(engine.hybrid_domain(x0).min(), Some(9));
    assert_eq!(engine.hybrid_domain(x1).min(), Some(9));
}

#[test]
fn variable_width_forces_y_when_min_widths_overlap() {
    let mut engine = Engine::new();
    let x0 = engine.new_variable(IntervalDomain::fix(0));
    let y0 = engine.new_variable(IntervalDomain::new(0, 10));
    let x1 = engine.new_variable(IntervalDomain::fix(0));
    let y1 = engine.new_variable(IntervalDomain::new(0, 10));
    let w0 = engine.new_variable(IntervalDomain::new(2, 4));
    let w1 = engine.new_variable(IntervalDomain::new(2, 4));
    engine.add_propagator(Box::new(DiffnPropagator::new(vec![
        RectangleSpec::with_variable_size(x0, y0, 2, Some(w0), 2, None),
        RectangleSpec::with_variable_size(x1, y1, 2, Some(w1), 2, None),
    ])));

    assert!(!engine.commit_initial_propagation().unwrap().is_failure());
    assert_eq!(engine.hybrid_domain(y0).min(), Some(9));
    assert_eq!(engine.hybrid_domain(y1).min(), Some(9));
}

#[test]
fn variable_width_allows_side_by_side_when_min_fits() {
    let mut engine = Engine::new();
    let x0 = engine.new_variable(IntervalDomain::fix(0));
    let y0 = engine.new_variable(IntervalDomain::fix(0));
    let x1 = engine.new_variable(IntervalDomain::new(1, 5));
    let y1 = engine.new_variable(IntervalDomain::fix(0));
    let w0 = engine.new_variable(IntervalDomain::new(1, 3));
    let w1 = engine.new_variable(IntervalDomain::fix(1));
    engine.add_propagator(Box::new(DiffnPropagator::new(vec![
        RectangleSpec::with_variable_size(x0, y0, 1, Some(w0), 1, None),
        RectangleSpec::with_variable_size(x1, y1, 1, Some(w1), 1, None),
    ])));

    assert!(!engine.commit_initial_propagation().unwrap().is_failure());
    // Min width 1 allows x1=1; do not force y separation.
    assert_eq!(engine.hybrid_domain(y0).min(), Some(0));
    assert_eq!(engine.hybrid_domain(y1).min(), Some(0));
}

#[test]
fn empty_size_domain_fails() {
    let mut engine = Engine::new();
    let x0 = engine.new_variable(IntervalDomain::new(0, 5));
    let y0 = engine.new_variable(IntervalDomain::new(0, 5));
    let x1 = engine.new_variable(IntervalDomain::new(0, 5));
    let y1 = engine.new_variable(IntervalDomain::new(0, 5));
    let w0 = engine.new_variable(IntervalDomain::new(2, 1));
    engine.add_propagator(Box::new(DiffnPropagator::new(vec![
        RectangleSpec::with_variable_size(x0, y0, 1, Some(w0), 1, None),
        RectangleSpec::new(x1, y1, 1, 1),
    ])));
    assert_eq!(engine.propagate_all().unwrap(), PropagationStatus::Failure);
}

// ---- disjunctive.rs
#[test]
fn fixed_start_forbids_overlapping_values() {
    let mut engine = Engine::new();
    let start_a = engine.new_variable(IntervalDomain::new(0, 10));
    let start_b = engine.new_variable(IntervalDomain::new(0, 10));
    engine.add_propagator(Box::new(DisjunctivePropagator::new(vec![
        DisjunctiveTask {
            start: start_a,
            duration: 4,
        },
        DisjunctiveTask {
            start: start_b,
            duration: 2,
        },
    ])));
    engine.fix_variable(start_a, 0).unwrap();
    engine.propagate_all().unwrap();
    assert!(!engine.domain(start_b).contains(0));
    assert!(!engine.domain(start_b).contains(1));
    assert!(!engine.domain(start_b).contains(2));
    assert!(!engine.domain(start_b).contains(3));
    assert!(engine.domain(start_b).contains(4));
}

#[test]
fn overlapping_fixed_starts_fail() {
    let mut engine = Engine::new();
    let start_a = engine.new_variable(IntervalDomain::new(0, 10));
    let start_b = engine.new_variable(IntervalDomain::new(0, 10));
    engine.add_propagator(Box::new(DisjunctivePropagator::new(vec![
        DisjunctiveTask {
            start: start_a,
            duration: 3,
        },
        DisjunctiveTask {
            start: start_b,
            duration: 3,
        },
    ])));
    engine.fix_variable(start_a, 0).unwrap();
    let status = engine.fix_variable(start_b, 0).unwrap();
    assert_eq!(status, PropagationStatus::Failure);
}

#[test]
fn sequential_starts_are_consistent() {
    let mut engine = Engine::new();
    let start_a = engine.new_variable(IntervalDomain::new(0, 10));
    let start_b = engine.new_variable(IntervalDomain::new(0, 10));
    engine.add_propagator(Box::new(DisjunctivePropagator::new(vec![
        DisjunctiveTask {
            start: start_a,
            duration: 3,
        },
        DisjunctiveTask {
            start: start_b,
            duration: 2,
        },
    ])));
    engine.fix_variable(start_a, 0).unwrap();
    let status = engine.fix_variable(start_b, 3).unwrap();
    assert_ne!(status, PropagationStatus::Failure);
}

#[test]
fn energy_overload_detects_three_task_infeasibility() {
    let mut engine = Engine::new();
    let start_a = engine.new_variable(IntervalDomain::new(0, 2));
    let start_b = engine.new_variable(IntervalDomain::new(0, 2));
    let start_c = engine.new_variable(IntervalDomain::new(0, 2));
    engine.add_propagator(Box::new(DisjunctivePropagator::new(vec![
        DisjunctiveTask {
            start: start_a,
            duration: 2,
        },
        DisjunctiveTask {
            start: start_b,
            duration: 2,
        },
        DisjunctiveTask {
            start: start_c,
            duration: 2,
        },
    ])));
    assert_eq!(
        engine.propagate_all().unwrap(),
        PropagationStatus::Failure
    );
}

// ---- reified.rs
#[test]
fn reified_eq_singleton_false_propagates_not_equal() {
    let mut engine = Engine::new();
    let left = engine.new_variable(IntervalDomain::new(1, 3));
    let right = engine.new_variable(IntervalDomain::fix(2));
    let reif = engine.new_variable(IntervalDomain::new(0, 0));
    engine.add_propagator(Box::new(ReifiedEqualityPropagator::new(left, right, reif)));
    engine.propagate_all().unwrap();
    assert!(!engine.hybrid_domain(left).contains(2));
}

#[test]
fn reified_ne_singleton_true_propagates_not_equal() {
    let mut engine = Engine::new();
    let left = engine.new_variable(IntervalDomain::new(1, 3));
    let right = engine.new_variable(IntervalDomain::fix(2));
    let reif = engine.new_variable(IntervalDomain::new(1, 1));
    engine.add_propagator(Box::new(ReifiedNotEqualPropagator::new(left, right, reif)));
    engine.propagate_all().unwrap();
    assert!(!engine.hybrid_domain(left).contains(2));
}

#[test]
fn reified_ne_singleton_false_propagates_equal() {
    let mut engine = Engine::new();
    let left = engine.new_variable(IntervalDomain::new(1, 5));
    let right = engine.new_variable(IntervalDomain::new(1, 5));
    let reif = engine.new_variable(IntervalDomain::new(0, 0));
    engine.add_propagator(Box::new(ReifiedNotEqualPropagator::new(left, right, reif)));
    engine.fix_variable(left, 3).unwrap();
    engine.propagate_all().unwrap();
    assert_eq!(engine.hybrid_domain(right).fixed_value(), Some(3));
}

#[test]
fn reified_le_singleton_false_propagates_greater_than() {
    let mut engine = Engine::new();
    let left = engine.new_variable(IntervalDomain::new(3, 5));
    let right = engine.new_variable(IntervalDomain::new(1, 4));
    let reif = engine.new_variable(IntervalDomain::new(0, 0));
    engine.add_propagator(Box::new(ReifiedLessEqualPropagator::new(left, right, reif)));
    engine.propagate_all().unwrap();
    assert!(
        engine.hybrid_domain(left).min().unwrap() > engine.hybrid_domain(right).max().unwrap()
    );
}

#[test]
fn reified_lt_singleton_false_propagates_greater_equal() {
    let mut engine = Engine::new();
    let left = engine.new_variable(IntervalDomain::new(3, 5));
    let right = engine.new_variable(IntervalDomain::new(1, 4));
    let reif = engine.new_variable(IntervalDomain::new(0, 0));
    engine.add_propagator(Box::new(ReifiedLessThanPropagator::new(left, right, reif)));
    engine.propagate_all().unwrap();
    assert!(
        engine.hybrid_domain(left).min().unwrap() >= engine.hybrid_domain(right).min().unwrap()
    );
}

#[test]
fn reified_eq_fixed_right_equalizes_left() {
    let mut engine = Engine::new();
    let left = engine.new_variable(IntervalDomain::new(1, 5));
    let right = engine.new_variable(IntervalDomain::fix(3));
    let reif = engine.new_variable(IntervalDomain::new(1, 1));
    engine.add_propagator(Box::new(ReifiedEqualityPropagator::new(left, right, reif)));
    engine.propagate_all().unwrap();
    assert_eq!(engine.hybrid_domain(left).fixed_value(), Some(3));
}

#[test]
fn reified_eq_syncs_bounds_between_operands() {
    let mut engine = Engine::new();
    let left = engine.new_variable(IntervalDomain::new(2, 4));
    let right = engine.new_variable(IntervalDomain::new(1, 10));
    let reif = engine.new_variable(IntervalDomain::new(1, 1));
    engine.add_propagator(Box::new(ReifiedEqualityPropagator::new(left, right, reif)));
    engine.propagate_all().unwrap();
    assert_eq!(engine.hybrid_domain(right).min(), Some(2));
    assert_eq!(engine.hybrid_domain(right).max(), Some(4));
}

#[test]
fn reified_ne_fixed_left_prunes_right() {
    let mut engine = Engine::new();
    let left = engine.new_variable(IntervalDomain::fix(2));
    let right = engine.new_variable(IntervalDomain::new(1, 3));
    let reif = engine.new_variable(IntervalDomain::new(1, 1));
    engine.add_propagator(Box::new(ReifiedNotEqualPropagator::new(left, right, reif)));
    engine.propagate_all().unwrap();
    assert!(!engine.hybrid_domain(right).contains(2));
}

#[test]
fn reified_lt_fixed_right_tightens_left() {
    let mut engine = Engine::new();
    let left = engine.new_variable(IntervalDomain::new(1, 10));
    let right = engine.new_variable(IntervalDomain::fix(4));
    let reif = engine.new_variable(IntervalDomain::new(1, 1));
    engine.add_propagator(Box::new(ReifiedLessThanPropagator::new(left, right, reif)));
    engine.propagate_all().unwrap();
    assert_eq!(engine.hybrid_domain(left).max(), Some(3));
}

#[test]
fn reified_le_fixed_left_tightens_right() {
    let mut engine = Engine::new();
    let left = engine.new_variable(IntervalDomain::fix(6));
    let right = engine.new_variable(IntervalDomain::new(1, 10));
    let reif = engine.new_variable(IntervalDomain::new(1, 1));
    engine.add_propagator(Box::new(ReifiedLessEqualPropagator::new(left, right, reif)));
    engine.propagate_all().unwrap();
    assert_eq!(engine.hybrid_domain(right).min(), Some(6));
}

#[test]
fn reified_ge_via_lt_false_tightens_right() {
    let mut engine = Engine::new();
    let left = engine.new_variable(IntervalDomain::new(1, 10));
    let right = engine.new_variable(IntervalDomain::new(1, 10));
    let reif = engine.new_variable(IntervalDomain::new(0, 0));
    engine.add_propagator(Box::new(ReifiedLessThanPropagator::new(left, right, reif)));
    engine.fix_variable(left, 5).unwrap();
    engine.propagate_all().unwrap();
    assert!(engine.hybrid_domain(right).min().unwrap() <= 5);
}

#[test]
fn reified_eq_empty_domain_fails() {
    let mut engine = Engine::new();
    let left = engine.new_variable(IntervalDomain::new(1, 0));
    let right = engine.new_variable(IntervalDomain::new(1, 5));
    let reif = engine.new_variable(IntervalDomain::new(0, 1));
    engine.add_propagator(Box::new(ReifiedEqualityPropagator::new(left, right, reif)));
    assert_eq!(engine.propagate_all().unwrap(), PropagationStatus::Failure);
}

#[test]
fn reified_eq_failure_on_empty_domain() {
    let mut engine = Engine::new();
    let left = engine.new_variable(IntervalDomain::new(1, 0));
    let right = engine.new_variable(IntervalDomain::new(1, 5));
    let reif = engine.new_variable(IntervalDomain::new(0, 1));
    engine.add_propagator(Box::new(ReifiedNotEqualPropagator::new(left, right, reif)));
    assert_eq!(engine.propagate_all().unwrap(), PropagationStatus::Failure);
}

#[test]
fn reified_le_failure_on_empty_domain() {
    let mut engine = Engine::new();
    let left = engine.new_variable(IntervalDomain::new(1, 0));
    let right = engine.new_variable(IntervalDomain::new(1, 5));
    let reif = engine.new_variable(IntervalDomain::new(0, 1));
    engine.add_propagator(Box::new(ReifiedLessEqualPropagator::new(left, right, reif)));
    assert_eq!(engine.propagate_all().unwrap(), PropagationStatus::Failure);
}

#[test]
fn reified_lt_failure_on_empty_domain() {
    let mut engine = Engine::new();
    let left = engine.new_variable(IntervalDomain::new(1, 0));
    let right = engine.new_variable(IntervalDomain::new(1, 5));
    let reif = engine.new_variable(IntervalDomain::new(0, 1));
    engine.add_propagator(Box::new(ReifiedLessThanPropagator::new(left, right, reif)));
    assert_eq!(engine.propagate_all().unwrap(), PropagationStatus::Failure);
}

#[test]
fn reified_le_singleton_true_propagates() {
    let mut engine = Engine::new();
    let left = engine.new_variable(IntervalDomain::new(1, 5));
    let right = engine.new_variable(IntervalDomain::new(1, 10));
    let reif = engine.new_variable(IntervalDomain::new(1, 1));
    engine.add_propagator(Box::new(ReifiedLessEqualPropagator::new(left, right, reif)));
    engine.fix_variable(left, 4).unwrap();
    engine.propagate_all().unwrap();
    assert!(engine.hybrid_domain(right).min().unwrap() >= 4);
}

#[test]
fn reified_lt_singleton_true_propagates() {
    let mut engine = Engine::new();
    let left = engine.new_variable(IntervalDomain::new(1, 5));
    let right = engine.new_variable(IntervalDomain::new(1, 10));
    let reif = engine.new_variable(IntervalDomain::new(1, 1));
    engine.add_propagator(Box::new(ReifiedLessThanPropagator::new(left, right, reif)));
    engine.fix_variable(left, 4).unwrap();
    engine.propagate_all().unwrap();
    assert!(engine.hybrid_domain(right).min().unwrap() >= 5);
}

#[test]
fn reified_ne_singleton_true_propagates() {
    let mut engine = Engine::new();
    let left = engine.new_variable(IntervalDomain::new(1, 3));
    let right = engine.new_variable(IntervalDomain::fix(2));
    let reif = engine.new_variable(IntervalDomain::new(1, 1));
    engine.add_propagator(Box::new(ReifiedNotEqualPropagator::new(left, right, reif)));
    engine.propagate_all().unwrap();
    assert!(!engine.hybrid_domain(left).contains(2));
}

#[test]
fn reified_eq_true_fixes_equal_values() {
    let mut engine = Engine::new();
    let left = engine.new_variable(IntervalDomain::new(1, 5));
    let right = engine.new_variable(IntervalDomain::new(1, 5));
    let reif = engine.new_variable(IntervalDomain::new(0, 1));
    engine.add_propagator(Box::new(ReifiedEqualityPropagator::new(left, right, reif)));
    engine.fix_variable(reif, 1).unwrap();
    engine.fix_variable(left, 3).unwrap();
    engine.propagate_all().unwrap();
    assert_eq!(engine.hybrid_domain(right).fixed_value(), Some(3));
}

#[test]
fn reified_eq_false_removes_matching_value() {
    let mut engine = Engine::new();
    let left = engine.new_variable(IntervalDomain::new(1, 3));
    let right = engine.new_variable(IntervalDomain::fix(2));
    let reif = engine.new_variable(IntervalDomain::new(0, 1));
    engine.add_propagator(Box::new(ReifiedEqualityPropagator::new(left, right, reif)));
    engine.fix_variable(reif, 0).unwrap();
    engine.propagate_all().unwrap();
    assert!(!engine.hybrid_domain(left).contains(2));
}

#[test]
fn reified_ne_true_prunes_equal_value() {
    let mut engine = Engine::new();
    let left = engine.new_variable(IntervalDomain::new(1, 3));
    let right = engine.new_variable(IntervalDomain::fix(2));
    let reif = engine.new_variable(IntervalDomain::new(0, 1));
    engine.add_propagator(Box::new(ReifiedNotEqualPropagator::new(left, right, reif)));
    engine.fix_variable(reif, 1).unwrap();
    engine.propagate_all().unwrap();
    assert!(!engine.hybrid_domain(left).contains(2));
}

#[test]
fn reified_le_false_tightens_bounds() {
    let mut engine = Engine::new();
    let left = engine.new_variable(IntervalDomain::new(3, 5));
    let right = engine.new_variable(IntervalDomain::new(1, 4));
    let reif = engine.new_variable(IntervalDomain::new(0, 1));
    engine.add_propagator(Box::new(ReifiedLessEqualPropagator::new(left, right, reif)));
    engine.fix_variable(reif, 0).unwrap();
    engine.propagate_all().unwrap();
    assert!(engine.hybrid_domain(right).max().unwrap() <= 2);
    assert!(
        engine.hybrid_domain(left).min().unwrap() > engine.hybrid_domain(right).max().unwrap()
    );
}

#[test]
fn reified_lt_true_tightens_upper_bound() {
    let mut engine = Engine::new();
    let left = engine.new_variable(IntervalDomain::new(1, 10));
    let right = engine.new_variable(IntervalDomain::fix(4));
    let reif = engine.new_variable(IntervalDomain::new(0, 1));
    engine.add_propagator(Box::new(ReifiedLessThanPropagator::new(left, right, reif)));
    engine.fix_variable(reif, 1).unwrap();
    engine.propagate_all().unwrap();
    assert_eq!(engine.hybrid_domain(left).max(), Some(3));
}

#[test]
fn reified_eq_singleton_reif_propagates() {
    let mut engine = Engine::new();
    let left = engine.new_variable(IntervalDomain::new(1, 5));
    let right = engine.new_variable(IntervalDomain::new(1, 5));
    let reif = engine.new_variable(IntervalDomain::new(1, 1));
    engine.add_propagator(Box::new(ReifiedEqualityPropagator::new(left, right, reif)));
    engine.fix_variable(left, 3).unwrap();
    engine.propagate_all().unwrap();
    assert_eq!(engine.hybrid_domain(right).fixed_value(), Some(3));
}

#[test]
fn reified_eq_infers_reif_true_when_equal() {
    let mut engine = Engine::new();
    let left = engine.new_variable(IntervalDomain::fix(4));
    let right = engine.new_variable(IntervalDomain::fix(4));
    let reif = engine.new_variable(IntervalDomain::new(0, 1));
    engine.add_propagator(Box::new(ReifiedEqualityPropagator::new(left, right, reif)));
    engine.propagate_all().unwrap();
    assert_eq!(engine.hybrid_domain(reif).fixed_value(), Some(1));
}

#[test]
fn reified_eq_infers_reif_false_when_disjoint() {
    let mut engine = Engine::new();
    let left = engine.new_variable(IntervalDomain::new(1, 3));
    let right = engine.new_variable(IntervalDomain::new(5, 7));
    let reif = engine.new_variable(IntervalDomain::new(0, 1));
    engine.add_propagator(Box::new(ReifiedEqualityPropagator::new(left, right, reif)));
    engine.propagate_all().unwrap();
    assert_eq!(engine.hybrid_domain(reif).fixed_value(), Some(0));
}

#[test]
fn reified_eq_already_satisfied_no_change() {
    let mut engine = Engine::new();
    let left = engine.new_variable(IntervalDomain::fix(2));
    let right = engine.new_variable(IntervalDomain::fix(2));
    let reif = engine.new_variable(IntervalDomain::new(1, 1));
    engine.add_propagator(Box::new(ReifiedEqualityPropagator::new(left, right, reif)));
    assert_eq!(
        engine.propagate_all().unwrap(),
        PropagationStatus::OkNoChange
    );
}

#[test]
fn reified_ne_reif_zero_syncs_bounds() {
    let mut engine = Engine::new();
    let left = engine.new_variable(IntervalDomain::new(1, 5));
    let right = engine.new_variable(IntervalDomain::new(1, 5));
    let reif = engine.new_variable(IntervalDomain::new(0, 0));
    engine.add_propagator(Box::new(ReifiedNotEqualPropagator::new(left, right, reif)));
    engine.fix_variable(left, 3).unwrap();
    engine.propagate_all().unwrap();
    assert_eq!(engine.hybrid_domain(right).fixed_value(), Some(3));
}

#[test]
fn reified_ne_infers_reif_false_when_equal() {
    let mut engine = Engine::new();
    let left = engine.new_variable(IntervalDomain::fix(5));
    let right = engine.new_variable(IntervalDomain::fix(5));
    let reif = engine.new_variable(IntervalDomain::new(0, 1));
    engine.add_propagator(Box::new(ReifiedNotEqualPropagator::new(left, right, reif)));
    engine.propagate_all().unwrap();
    assert_eq!(engine.hybrid_domain(reif).fixed_value(), Some(0));
}

#[test]
fn reified_le_true_propagates_bounds() {
    let mut engine = Engine::new();
    let left = engine.new_variable(IntervalDomain::fix(6));
    let right = engine.new_variable(IntervalDomain::new(1, 10));
    let reif = engine.new_variable(IntervalDomain::new(0, 1));
    engine.add_propagator(Box::new(ReifiedLessEqualPropagator::new(left, right, reif)));
    engine.fix_variable(reif, 1).unwrap();
    engine.propagate_all().unwrap();
    assert_eq!(engine.hybrid_domain(right).min(), Some(6));
}

#[test]
fn reified_le_infers_true_from_bounds() {
    let mut engine = Engine::new();
    let left = engine.new_variable(IntervalDomain::new(1, 3));
    let right = engine.new_variable(IntervalDomain::new(5, 7));
    let reif = engine.new_variable(IntervalDomain::new(0, 1));
    engine.add_propagator(Box::new(ReifiedLessEqualPropagator::new(left, right, reif)));
    engine.propagate_all().unwrap();
    assert_eq!(engine.hybrid_domain(reif).fixed_value(), Some(1));
}

#[test]
fn reified_le_infers_false_from_bounds() {
    let mut engine = Engine::new();
    let left = engine.new_variable(IntervalDomain::new(6, 8));
    let right = engine.new_variable(IntervalDomain::new(1, 4));
    let reif = engine.new_variable(IntervalDomain::new(0, 1));
    engine.add_propagator(Box::new(ReifiedLessEqualPropagator::new(left, right, reif)));
    engine.propagate_all().unwrap();
    assert_eq!(engine.hybrid_domain(reif).fixed_value(), Some(0));
}

#[test]
fn reified_lt_false_forces_ge() {
    let mut engine = Engine::new();
    let left = engine.new_variable(IntervalDomain::new(3, 5));
    let right = engine.new_variable(IntervalDomain::new(1, 4));
    let reif = engine.new_variable(IntervalDomain::new(0, 1));
    engine.add_propagator(Box::new(ReifiedLessThanPropagator::new(left, right, reif)));
    engine.fix_variable(reif, 0).unwrap();
    engine.propagate_all().unwrap();
    assert!(
        engine.hybrid_domain(left).min().unwrap() >= engine.hybrid_domain(right).min().unwrap()
    );
}

#[test]
fn reified_lt_infers_true_from_bounds() {
    let mut engine = Engine::new();
    let left = engine.new_variable(IntervalDomain::new(1, 3));
    let right = engine.new_variable(IntervalDomain::new(5, 7));
    let reif = engine.new_variable(IntervalDomain::new(0, 1));
    engine.add_propagator(Box::new(ReifiedLessThanPropagator::new(left, right, reif)));
    engine.propagate_all().unwrap();
    assert_eq!(engine.hybrid_domain(reif).fixed_value(), Some(1));
}

#[test]
fn reified_lt_infers_false_from_bounds() {
    let mut engine = Engine::new();
    let left = engine.new_variable(IntervalDomain::new(5, 7));
    let right = engine.new_variable(IntervalDomain::new(1, 4));
    let reif = engine.new_variable(IntervalDomain::new(0, 1));
    engine.add_propagator(Box::new(ReifiedLessThanPropagator::new(left, right, reif)));
    engine.propagate_all().unwrap();
    assert_eq!(engine.hybrid_domain(reif).fixed_value(), Some(0));
}

#[test]
fn reified_lt_fixed_left_tightens_right() {
    let mut engine = Engine::new();
    let left = engine.new_variable(IntervalDomain::fix(3));
    let right = engine.new_variable(IntervalDomain::new(1, 10));
    let reif = engine.new_variable(IntervalDomain::new(0, 1));
    engine.add_propagator(Box::new(ReifiedLessThanPropagator::new(left, right, reif)));
    engine.fix_variable(reif, 1).unwrap();
    engine.propagate_all().unwrap();
    assert!(engine.hybrid_domain(right).min().unwrap() >= 4);
}

#[test]
fn reified_eq_singleton_true_via_domain() {
    let mut engine = Engine::new();
    let left = engine.new_variable(IntervalDomain::new(1, 5));
    let right = engine.new_variable(IntervalDomain::new(1, 5));
    let reif = engine.new_variable(IntervalDomain::new(1, 1));
    engine.add_propagator(Box::new(ReifiedEqualityPropagator::new(left, right, reif)));
    engine.fix_variable(left, 4).unwrap();
    engine.propagate_all().unwrap();
    assert_eq!(engine.hybrid_domain(right).fixed_value(), Some(4));
}

#[test]
fn reified_ne_domains_equal_infers_false() {
    let mut engine = Engine::new();
    let left = engine.new_variable(IntervalDomain::fix(3));
    let right = engine.new_variable(IntervalDomain::fix(3));
    let reif = engine.new_variable(IntervalDomain::new(0, 1));
    engine.add_propagator(Box::new(ReifiedNotEqualPropagator::new(left, right, reif)));
    engine.propagate_all().unwrap();
    assert_eq!(engine.hybrid_domain(reif).fixed_value(), Some(0));
}

#[test]
fn reified_le_singleton_false_via_domain() {
    let mut engine = Engine::new();
    let left = engine.new_variable(IntervalDomain::new(6, 8));
    let right = engine.new_variable(IntervalDomain::new(1, 4));
    let reif = engine.new_variable(IntervalDomain::new(0, 0));
    engine.add_propagator(Box::new(ReifiedLessEqualPropagator::new(left, right, reif)));
    engine.propagate_all().unwrap();
    assert!(
        engine.hybrid_domain(left).min().unwrap() > engine.hybrid_domain(right).max().unwrap()
    );
}

#[test]
fn reified_lt_singleton_true_via_domain() {
    let mut engine = Engine::new();
    let left = engine.new_variable(IntervalDomain::new(1, 3));
    let right = engine.new_variable(IntervalDomain::new(5, 7));
    let reif = engine.new_variable(IntervalDomain::new(1, 1));
    engine.add_propagator(Box::new(ReifiedLessThanPropagator::new(left, right, reif)));
    engine.propagate_all().unwrap();
    assert_eq!(engine.hybrid_domain(reif).fixed_value(), Some(1));
}

#[test]
fn reified_lt_fixed_operands_infer_reif() {
    let mut engine = Engine::new();
    let left = engine.new_variable(IntervalDomain::fix(2));
    let right = engine.new_variable(IntervalDomain::fix(5));
    let reif = engine.new_variable(IntervalDomain::new(0, 1));
    engine.add_propagator(Box::new(ReifiedLessThanPropagator::new(left, right, reif)));
    engine.propagate_all().unwrap();
    assert_eq!(engine.hybrid_domain(reif).fixed_value(), Some(1));
}

#[test]
fn reified_lt_never_less_than_infers_false() {
    let mut engine = Engine::new();
    let left = engine.new_variable(IntervalDomain::new(5, 7));
    let right = engine.new_variable(IntervalDomain::new(1, 4));
    let reif = engine.new_variable(IntervalDomain::new(0, 1));
    engine.add_propagator(Box::new(ReifiedLessThanPropagator::new(left, right, reif)));
    engine.propagate_all().unwrap();
    assert_eq!(engine.hybrid_domain(reif).fixed_value(), Some(0));
}

#[test]
fn propagate_greater_than_tightens_bounds() {

    let mut engine = Engine::new();
    let left = engine.new_variable(IntervalDomain::new(5, 8));
    let right = engine.new_variable(IntervalDomain::new(1, 6));
    let mut ctx = MutEngine(&mut engine);
    assert!(propagate_greater_than(&mut ctx, left, right));
    assert!(engine.hybrid_domain(right).max().unwrap() <= 4);
}

#[test]
fn propagate_less_than_with_fixed_operands() {

    let mut engine = Engine::new();
    let left = engine.new_variable(IntervalDomain::fix(3));
    let right = engine.new_variable(IntervalDomain::new(1, 10));
    let mut ctx = MutEngine(&mut engine);
    assert!(propagate_less_than(&mut ctx, left, right));
    assert!(engine.hybrid_domain(right).min().unwrap() >= 4);
}

#[test]
fn propagate_greater_equal_tightens_bounds() {

    let mut engine = Engine::new();
    let left = engine.new_variable(IntervalDomain::new(1, 10));
    let right = engine.new_variable(IntervalDomain::fix(6));
    let mut ctx = MutEngine(&mut engine);
    assert!(propagate_greater_equal(&mut ctx, left, right));
    assert!(engine.hybrid_domain(left).min().unwrap() >= 6);
}

#[test]
fn propagate_equal_syncs_bounds() {

    let mut engine = Engine::new();
    let left = engine.new_variable(IntervalDomain::new(2, 4));
    let right = engine.new_variable(IntervalDomain::new(1, 10));
    let mut ctx = MutEngine(&mut engine);
    assert!(propagate_equal(&mut ctx, left, right));
    assert_eq!(engine.hybrid_domain(right).min(), Some(2));
}

#[test]
fn reified_eq_singleton_true_via_unfixed_reif_domain() {
    let mut engine = Engine::new();
    let left = engine.new_variable(IntervalDomain::new(1, 5));
    let right = engine.new_variable(IntervalDomain::new(1, 5));
    let reif = engine.new_variable(IntervalDomain::new(1, 1));
    let mut prop = ReifiedEqualityPropagator::new(left, right, reif);
    let mut ctx = MutEngine(&mut engine);
    assert_eq!(prop.propagate(&mut ctx), PropagationStatus::OkNoChange);
}

#[test]
fn reified_failure_on_empty_reif_domain() {
    let mut engine = Engine::new();
    let left = engine.new_variable(IntervalDomain::new(1, 5));
    let right = engine.new_variable(IntervalDomain::new(1, 5));
    let reif = engine.new_variable(IntervalDomain::new(1, 0));
    let mut prop = ReifiedEqualityPropagator::new(left, right, reif);
    let mut ctx = MutEngine(&mut engine);
    assert_eq!(prop.propagate(&mut ctx), PropagationStatus::Failure);
}

#[test]
fn reified_invalid_singleton_reif_is_ignored() {
    let mut engine = Engine::new();
    let left = engine.new_variable(IntervalDomain::new(1, 5));
    let right = engine.new_variable(IntervalDomain::new(1, 5));
    let reif = engine.new_variable(IntervalDomain::new(2, 2));
    let mut prop = ReifiedEqualityPropagator::new(left, right, reif);
    let mut ctx = MutEngine(&mut engine);
    assert_eq!(prop.propagate(&mut ctx), PropagationStatus::OkNoChange);
}

#[test]
fn reified_not_equal_singleton_paths() {
    let mut engine = Engine::new();
    let left = engine.new_variable(IntervalDomain::new(1, 3));
    let right = engine.new_variable(IntervalDomain::fix(2));
    let reif = engine.new_variable(IntervalDomain::new(1, 1));
    let mut prop = ReifiedNotEqualPropagator::new(left, right, reif);
    let mut ctx = MutEngine(&mut engine);
    assert_eq!(prop.propagate(&mut ctx), PropagationStatus::OkChanged);
}

#[test]
fn mock_singleton_reif_eq_propagates_equal() {

    let mut engine = Engine::new();
    let left = engine.new_variable(IntervalDomain::new(0, 0));
    let right = engine.new_variable(IntervalDomain::new(0, 0));
    let reif = engine.new_variable(IntervalDomain::new(0, 0));
    let mut ctx = MockIntCtx::new()
        .with_domain(left, vec![1, 2, 3])
        .with_domain(right, vec![1, 2, 3, 4])
        .with_domain(reif, vec![1]);
    let mut prop = ReifiedEqualityPropagator::new(left, right, reif);
    assert_eq!(prop.propagate(&mut ctx), PropagationStatus::OkChanged);
}

#[test]
fn mock_singleton_reif_ne_propagates_not_equal() {

    let mut engine = Engine::new();
    let left = engine.new_variable(IntervalDomain::new(0, 0));
    let right = engine.new_variable(IntervalDomain::new(0, 0));
    let reif = engine.new_variable(IntervalDomain::new(0, 0));
    let mut ctx = MockIntCtx::new()
        .with_domain(left, vec![1, 2, 3])
        .with_domain(right, vec![2])
        .with_domain(reif, vec![1])
        .with_fixed(right, 2);
    let mut prop = ReifiedNotEqualPropagator::new(left, right, reif);
    assert_eq!(prop.propagate(&mut ctx), PropagationStatus::OkChanged);
    assert!(!ctx.values_of(&left).contains(&2));
}

#[test]
fn mock_singleton_reif_le_propagates() {

    let mut engine = Engine::new();
    let left = engine.new_variable(IntervalDomain::new(0, 0));
    let right = engine.new_variable(IntervalDomain::new(0, 0));
    let reif = engine.new_variable(IntervalDomain::new(0, 0));
    let mut ctx = MockIntCtx::new()
        .with_domain(left, vec![1, 2, 3])
        .with_domain(right, vec![1, 2, 3, 4, 5])
        .with_domain(reif, vec![1]);
    let mut prop = ReifiedLessEqualPropagator::new(left, right, reif);
    assert_eq!(prop.propagate(&mut ctx), PropagationStatus::OkChanged);
}

#[test]
fn mock_singleton_reif_le_false_propagates_gt() {

    let mut engine = Engine::new();
    let left = engine.new_variable(IntervalDomain::new(0, 0));
    let right = engine.new_variable(IntervalDomain::new(0, 0));
    let reif = engine.new_variable(IntervalDomain::new(0, 0));
    let mut ctx = MockIntCtx::new()
        .with_domain(left, vec![5, 6, 7])
        .with_domain(right, vec![1, 2, 3])
        .with_domain(reif, vec![0]);
    let mut prop = ReifiedLessEqualPropagator::new(left, right, reif);
    assert_ne!(prop.propagate(&mut ctx), PropagationStatus::Failure);
    assert!(ctx.domain(left).min().unwrap() > ctx.domain(right).max().unwrap());
}

#[test]
fn mock_singleton_reif_lt_propagates() {

    let mut engine = Engine::new();
    let left = engine.new_variable(IntervalDomain::new(0, 0));
    let right = engine.new_variable(IntervalDomain::new(0, 0));
    let reif = engine.new_variable(IntervalDomain::new(0, 0));
    let mut ctx = MockIntCtx::new()
        .with_domain(left, vec![1, 2, 3])
        .with_domain(right, vec![1, 2, 3, 4, 5])
        .with_domain(reif, vec![1]);
    let mut prop = ReifiedLessThanPropagator::new(left, right, reif);
    assert_eq!(prop.propagate(&mut ctx), PropagationStatus::OkChanged);
}

#[test]
fn mock_singleton_reif_lt_false_propagates_ge() {

    let mut engine = Engine::new();
    let left = engine.new_variable(IntervalDomain::new(0, 0));
    let right = engine.new_variable(IntervalDomain::new(0, 0));
    let reif = engine.new_variable(IntervalDomain::new(0, 0));
    let mut ctx = MockIntCtx::new()
        .with_domain(left, vec![5, 6, 7])
        .with_domain(right, vec![1, 2, 3])
        .with_domain(reif, vec![0]);
    let mut prop = ReifiedLessThanPropagator::new(left, right, reif);
    assert_ne!(prop.propagate(&mut ctx), PropagationStatus::Failure);
    assert!(ctx.domain(left).min().unwrap() >= ctx.domain(right).min().unwrap());
}

#[test]
fn mock_reified_eq_domains_equal_infers_reif() {

    let mut engine = Engine::new();
    let left = engine.new_variable(IntervalDomain::new(0, 0));
    let right = engine.new_variable(IntervalDomain::new(0, 0));
    let reif = engine.new_variable(IntervalDomain::new(0, 0));
    let mut ctx = MockIntCtx::new()
        .with_domain(left, vec![4])
        .with_domain(right, vec![4])
        .with_domain(reif, vec![0, 1])
        .with_fixed(left, 4)
        .with_fixed(right, 4);
    let mut prop = ReifiedEqualityPropagator::new(left, right, reif);
    assert_eq!(prop.propagate(&mut ctx), PropagationStatus::OkChanged);
    assert_eq!(ctx.values_of(&reif).as_slice(), &[1]);
}

#[test]
fn mock_reified_le_infers_from_bounds() {

    let mut engine = Engine::new();
    let left = engine.new_variable(IntervalDomain::new(0, 0));
    let right = engine.new_variable(IntervalDomain::new(0, 0));
    let reif = engine.new_variable(IntervalDomain::new(0, 0));
    let mut ctx = MockIntCtx::new()
        .with_domain(left, vec![1, 2, 3])
        .with_domain(right, vec![5, 6, 7])
        .with_domain(reif, vec![0, 1]);
    let mut prop = ReifiedLessEqualPropagator::new(left, right, reif);
    assert_eq!(prop.propagate(&mut ctx), PropagationStatus::OkChanged);
    assert_eq!(ctx.values_of(&reif).as_slice(), &[1]);
}

#[test]
fn mock_reified_lt_fixed_operands_infer_reif() {

    let mut engine = Engine::new();
    let left = engine.new_variable(IntervalDomain::new(0, 0));
    let right = engine.new_variable(IntervalDomain::new(0, 0));
    let reif = engine.new_variable(IntervalDomain::new(0, 0));
    let mut ctx = MockIntCtx::new()
        .with_domain(left, vec![2])
        .with_domain(right, vec![5])
        .with_domain(reif, vec![0, 1])
        .with_fixed(left, 2)
        .with_fixed(right, 5);
    let mut prop = ReifiedLessThanPropagator::new(left, right, reif);
    assert_eq!(prop.propagate(&mut ctx), PropagationStatus::OkChanged);
    assert_eq!(ctx.values_of(&reif).as_slice(), &[1]);
}

#[test]
fn mock_propagate_helper_branches() {

    let mut engine = Engine::new();
    let left = engine.new_variable(IntervalDomain::new(0, 0));
    let right = engine.new_variable(IntervalDomain::new(0, 0));

    let mut ctx = MockIntCtx::new()
        .with_domain(left, vec![2, 3, 4, 10])
        .with_domain(right, vec![5, 6, 7]);
    assert!(propagate_less_equal(&mut ctx, left, right));

    let mut ctx = MockIntCtx::new()
        .with_domain(left, vec![5, 6, 7])
        .with_domain(right, vec![1, 2, 3, 6]);
    assert!(propagate_greater_than(&mut ctx, left, right));

    let mut ctx = MockIntCtx::new()
        .with_domain(left, vec![2, 3, 4, 10])
        .with_domain(right, vec![5, 6, 7]);
    assert!(propagate_less_than(&mut ctx, left, right));

    let mut ctx = MockIntCtx::new()
        .with_domain(left, vec![5, 6, 7])
        .with_domain(right, vec![2, 3, 4, 10]);
    assert!(propagate_greater_equal(&mut ctx, left, right));
}

#[test]
fn mock_singleton_invalid_reif_value_ignored() {

    let mut engine = Engine::new();
    let left = engine.new_variable(IntervalDomain::new(0, 0));
    let right = engine.new_variable(IntervalDomain::new(0, 0));
    let reif = engine.new_variable(IntervalDomain::new(0, 0));
    let mut ctx = MockIntCtx::new()
        .with_domain(left, vec![1, 2, 3])
        .with_domain(right, vec![1, 2, 3])
        .with_domain(reif, vec![2]);
    let mut prop = ReifiedEqualityPropagator::new(left, right, reif);
    assert_eq!(prop.propagate(&mut ctx), PropagationStatus::OkNoChange);
}

#[test]
fn mock_domains_disjoint_infers_false() {

    let mut engine = Engine::new();
    let left = engine.new_variable(IntervalDomain::new(0, 0));
    let right = engine.new_variable(IntervalDomain::new(0, 0));
    let reif = engine.new_variable(IntervalDomain::new(0, 0));
    let mut ctx = MockIntCtx::new()
        .with_domain(left, vec![1, 2])
        .with_domain(right, vec![5, 6])
        .with_domain(reif, vec![0, 1]);
    let mut prop = ReifiedEqualityPropagator::new(left, right, reif);
    assert_eq!(prop.propagate(&mut ctx), PropagationStatus::OkChanged);
    assert_eq!(ctx.values_of(&reif).as_slice(), &[0]);
}

#[test]
fn mock_singleton_reif_ne_propagates() {

    let mut engine = Engine::new();
    let left = engine.new_variable(IntervalDomain::new(0, 0));
    let right = engine.new_variable(IntervalDomain::new(0, 0));
    let reif = engine.new_variable(IntervalDomain::new(0, 0));
    let mut ctx = MockIntCtx::new()
        .with_domain(left, vec![1, 2, 3])
        .with_domain(right, vec![1, 2, 3, 4])
        .with_domain(reif, vec![1]);
    let mut prop = ReifiedNotEqualPropagator::new(left, right, reif);
    assert_ne!(prop.propagate(&mut ctx), PropagationStatus::Failure);
}

#[test]
fn mock_singleton_reif_le_true_and_false() {

    let mut engine = Engine::new();
    let left = engine.new_variable(IntervalDomain::new(0, 0));
    let right = engine.new_variable(IntervalDomain::new(0, 0));
    let reif = engine.new_variable(IntervalDomain::new(0, 0));
    let mut ctx_true = MockIntCtx::new()
        .with_domain(left, vec![1, 2, 3])
        .with_domain(right, vec![4, 5, 6])
        .with_domain(reif, vec![1]);
    let mut le = ReifiedLessEqualPropagator::new(left, right, reif);
    assert_ne!(le.propagate(&mut ctx_true), PropagationStatus::Failure);

    let reif2 = engine.new_variable(IntervalDomain::new(0, 0));
    let mut ctx_false = MockIntCtx::new()
        .with_domain(left, vec![8, 9, 10])
        .with_domain(right, vec![1, 2, 3])
        .with_domain(reif2, vec![0]);
    let mut le2 = ReifiedLessEqualPropagator::new(left, right, reif2);
    assert_ne!(le2.propagate(&mut ctx_false), PropagationStatus::Failure);
}

#[test]
fn mock_singleton_reif_lt_true_and_false() {

    let mut engine = Engine::new();
    let left = engine.new_variable(IntervalDomain::new(0, 0));
    let right = engine.new_variable(IntervalDomain::new(0, 0));
    let reif = engine.new_variable(IntervalDomain::new(0, 0));
    let mut ctx_true = MockIntCtx::new()
        .with_domain(left, vec![1, 2])
        .with_domain(right, vec![5, 6])
        .with_domain(reif, vec![1]);
    let mut lt = ReifiedLessThanPropagator::new(left, right, reif);
    assert_ne!(lt.propagate(&mut ctx_true), PropagationStatus::Failure);

    let reif2 = engine.new_variable(IntervalDomain::new(0, 0));
    let mut ctx_false = MockIntCtx::new()
        .with_domain(left, vec![5, 6])
        .with_domain(right, vec![1, 2])
        .with_domain(reif2, vec![0]);
    let mut lt2 = ReifiedLessThanPropagator::new(left, right, reif2);
    assert_ne!(lt2.propagate(&mut ctx_false), PropagationStatus::Failure);
}

#[test]
fn mock_reified_le_infers_true_and_false_from_bounds() {

    let mut engine = Engine::new();
    let left = engine.new_variable(IntervalDomain::new(0, 0));
    let right = engine.new_variable(IntervalDomain::new(0, 0));
    let reif = engine.new_variable(IntervalDomain::new(0, 0));
    let mut ctx_true = MockIntCtx::new()
        .with_domain(left, vec![1, 2])
        .with_domain(right, vec![5, 6])
        .with_domain(reif, vec![0, 1]);
    let mut prop = ReifiedLessEqualPropagator::new(left, right, reif);
    assert_eq!(prop.propagate(&mut ctx_true), PropagationStatus::OkChanged);
    assert_eq!(ctx_true.values_of(&reif).as_slice(), &[1]);

    let reif2 = engine.new_variable(IntervalDomain::new(0, 0));
    let mut ctx_false = MockIntCtx::new()
        .with_domain(left, vec![8, 9])
        .with_domain(right, vec![1, 2])
        .with_domain(reif2, vec![0, 1]);
    let mut prop2 = ReifiedLessEqualPropagator::new(left, right, reif2);
    assert_eq!(
        prop2.propagate(&mut ctx_false),
        PropagationStatus::OkChanged
    );
    assert_eq!(ctx_false.values_of(&reif2).as_slice(), &[0]);
}

#[test]
fn mock_open_singleton_reif_invalid_value_branch() {

    let mut engine = Engine::new();
    let left = engine.new_variable(IntervalDomain::new(0, 0));
    let right = engine.new_variable(IntervalDomain::new(0, 0));
    let reif = engine.new_variable(IntervalDomain::new(0, 0));
    let mut ctx = MockIntCtx::new()
        .with_domain(left, vec![1, 2, 3])
        .with_domain(right, vec![1, 2, 3])
        .with_open_singleton(reif, 2);
    let mut prop = ReifiedNotEqualPropagator::new(left, right, reif);
    assert_eq!(prop.propagate(&mut ctx), PropagationStatus::OkNoChange);
}

#[test]
fn mock_reified_eq_domains_equal_tightens_reif() {

    let mut engine = Engine::new();
    let left = engine.new_variable(IntervalDomain::new(0, 0));
    let right = engine.new_variable(IntervalDomain::new(0, 0));
    let reif = engine.new_variable(IntervalDomain::new(0, 0));
    let mut ctx = MockIntCtx::new()
        .with_open_singleton(left, 4)
        .with_open_singleton(right, 4)
        .with_domain(reif, vec![0, 1])
        .with_fixed(left, 4)
        .with_fixed(right, 4);
    let mut prop = ReifiedNotEqualPropagator::new(left, right, reif);
    assert_eq!(prop.propagate(&mut ctx), PropagationStatus::OkChanged);
    assert_eq!(ctx.domain_values(reif), vec![0]);
}

#[test]
fn mock_reified_propagators_empty_domain_fail() {

    let mut engine = Engine::new();
    let left = engine.new_variable(IntervalDomain::new(0, 0));
    let right = engine.new_variable(IntervalDomain::new(0, 0));
    let reif = engine.new_variable(IntervalDomain::new(0, 0));
    let mut ctx = MockIntCtx::new()
        .with_domain(left, vec![])
        .with_domain(right, vec![1, 2])
        .with_open_singleton(reif, 1);
    let mut prop = ReifiedLessEqualPropagator::new(left, right, reif);
    assert_eq!(prop.propagate(&mut ctx), PropagationStatus::Failure);
}

#[test]
fn mock_open_singleton_reif_propagators() {

    let mut engine = Engine::new();
    let left = engine.new_variable(IntervalDomain::new(0, 0));
    let right = engine.new_variable(IntervalDomain::new(0, 0));
    let reif = engine.new_variable(IntervalDomain::new(0, 0));

    let mut ctx = MockIntCtx::new()
        .with_domain(left, vec![1, 2, 3])
        .with_domain(right, vec![4, 5, 6])
        .with_open_singleton(reif, 1);
    let mut le = ReifiedLessEqualPropagator::new(left, right, reif);
    assert_ne!(le.propagate(&mut ctx), PropagationStatus::Failure);

    let reif2 = engine.new_variable(IntervalDomain::new(0, 0));
    let mut le2 = ReifiedLessEqualPropagator::new(left, right, reif2);
    let mut ctx2 = MockIntCtx::new()
        .with_domain(left, vec![8, 9])
        .with_domain(right, vec![1, 2])
        .with_open_singleton(reif2, 0);
    assert_ne!(le2.propagate(&mut ctx2), PropagationStatus::Failure);

    let reif3 = engine.new_variable(IntervalDomain::new(0, 0));
    let mut ctx3 = MockIntCtx::new()
        .with_domain(left, vec![1, 2])
        .with_domain(right, vec![5, 6])
        .with_open_singleton(reif3, 1);
    let mut lt = ReifiedLessThanPropagator::new(left, right, reif3);
    assert_ne!(lt.propagate(&mut ctx3), PropagationStatus::Failure);

    let reif4 = engine.new_variable(IntervalDomain::new(0, 0));
    let mut ctx4 = MockIntCtx::new()
        .with_domain(left, vec![1, 2, 3])
        .with_domain(right, vec![1, 2, 3, 4])
        .with_open_singleton(reif4, 1);
    let mut ne = ReifiedNotEqualPropagator::new(left, right, reif4);
    assert_ne!(ne.propagate(&mut ctx4), PropagationStatus::Failure);

    let reif5 = engine.new_variable(IntervalDomain::new(0, 0));
    let mut ctx5 = MockIntCtx::new()
        .with_domain(left, vec![1, 2, 3])
        .with_domain(right, vec![1, 2, 3])
        .with_open_singleton(reif5, 1);
    let mut eq = ReifiedEqualityPropagator::new(left, right, reif5);
    assert_ne!(eq.propagate(&mut ctx5), PropagationStatus::Failure);
}

#[test]
fn mock_domains_equal_and_disjoint_helpers() {

    let mut engine = Engine::new();
    let left = engine.new_variable(IntervalDomain::new(0, 0));
    let right = engine.new_variable(IntervalDomain::new(0, 0));
    let ctx_disjoint = MockIntCtx::new()
        .with_domain(left, vec![1, 2])
        .with_domain(right, vec![5, 6]);
    assert!(domains_disjoint(&ctx_disjoint, left, right));
    assert!(always_less_than(&ctx_disjoint, left, right));
    assert!(!never_less_than(&ctx_disjoint, left, right));
    let ctx_equal = MockIntCtx::new()
        .with_domain(left, vec![4])
        .with_domain(right, vec![4])
        .with_fixed(left, 4)
        .with_fixed(right, 4);
    assert!(domains_equal(&ctx_equal, left, right));
    assert!(always_less_equal(
        &MockIntCtx::new()
            .with_domain(left, vec![1, 2])
            .with_domain(right, vec![3, 4]),
        left,
        right
    ));
    assert!(never_less_equal(
        &MockIntCtx::new()
            .with_domain(left, vec![5, 6])
            .with_domain(right, vec![1, 2]),
        left,
        right
    ));
}

#[test]
fn mock_propagate_less_equal_remove_above_left_branch() {

    let mut engine = Engine::new();
    let left = engine.new_variable(IntervalDomain::new(1, 17));
    let right = engine.new_variable(IntervalDomain::new(5, 18));
    let mut ctx = MutEngine(&mut engine);
    assert!(propagate_less_equal(&mut ctx, left, right));
}

#[test]
fn mock_reified_eq_domains_equal_infers_false_via_open_singleton() {

    let mut engine = Engine::new();
    let left = engine.new_variable(IntervalDomain::new(0, 0));
    let right = engine.new_variable(IntervalDomain::new(0, 0));
    let reif = engine.new_variable(IntervalDomain::new(0, 0));
    let mut ctx = MockIntCtx::new()
        .with_open_singleton(left, 4)
        .with_open_singleton(right, 4)
        .with_domain(reif, vec![0, 1])
        .with_fixed(left, 4)
        .with_fixed(right, 4);
    let mut prop = ReifiedNotEqualPropagator::new(left, right, reif);
    assert_eq!(prop.propagate(&mut ctx), PropagationStatus::OkChanged);
    assert_eq!(ctx.domain_values(reif), vec![0]);
}

#[test]
fn mock_reified_eq_empty_operand_fails() {

    let mut engine = Engine::new();
    let left = engine.new_variable(IntervalDomain::new(0, 0));
    let right = engine.new_variable(IntervalDomain::new(0, 0));
    let reif = engine.new_variable(IntervalDomain::new(0, 0));
    let mut ctx = MockIntCtx::new()
        .with_domain(left, vec![])
        .with_domain(right, vec![1, 2])
        .with_open_singleton(reif, 1);
    let mut prop = ReifiedEqualityPropagator::new(left, right, reif);
    assert_eq!(prop.propagate(&mut ctx), PropagationStatus::Failure);
}

#[test]
fn mock_propagate_equal_and_ordering_helpers() {

    let mut engine = Engine::new();
    let left = engine.new_variable(IntervalDomain::new(0, 0));
    let right = engine.new_variable(IntervalDomain::new(0, 0));
    let mut ctx = MockIntCtx::new()
        .with_domain(left, vec![4, 5, 6])
        .with_domain(right, vec![4, 5, 6, 10]);
    assert!(propagate_equal(&mut ctx, left, right));
    assert_eq!(ctx.domain_values(left), vec![4, 5, 6]);
    assert_eq!(ctx.domain_values(right), vec![4, 5, 6]);

    let mut ctx3 = MockIntCtx::new()
        .with_domain(left, vec![5, 6, 7])
        .with_domain(right, vec![1, 2, 3, 6]);
    assert!(propagate_greater_than(&mut ctx3, left, right));

    let mut ctx4 = MockIntCtx::new()
        .with_domain(left, vec![2, 3, 4, 10])
        .with_domain(right, vec![5, 6, 7]);
    assert!(propagate_less_than(&mut ctx4, left, right));

    let mut ctx5 = MockIntCtx::new()
        .with_domain(left, vec![5])
        .with_domain(right, vec![1, 2, 3, 4, 5, 6])
        .with_fixed(left, 5);
    assert!(propagate_less_than(&mut ctx5, left, right));
    assert_eq!(ctx5.domain_values(right), vec![6]);

    let mut ctx6 = MockIntCtx::new()
        .with_domain(left, vec![1, 2, 3, 4, 5, 6])
        .with_domain(right, vec![3])
        .with_fixed(right, 3);
    assert!(propagate_less_than(&mut ctx6, left, right));
    assert_eq!(ctx6.domain_values(left), vec![1, 2]);

    assert!(!domains_disjoint(
        &MockIntCtx::new()
            .with_domain(left, vec![])
            .with_domain(right, vec![1, 2]),
        left,
        right
    ));
    assert!(!always_less_than(
        &MockIntCtx::new()
            .with_domain(left, vec![])
            .with_domain(right, vec![1, 2]),
        left,
        right
    ));
    assert!(!never_less_than(
        &MockIntCtx::new()
            .with_domain(left, vec![])
            .with_domain(right, vec![1, 2]),
        left,
        right
    ));
}

#[test]
fn mock_open_singleton_reif_le_ge_lt_ne_false_branches() {

    let mut engine = Engine::new();
    let left = engine.new_variable(IntervalDomain::new(0, 0));
    let right = engine.new_variable(IntervalDomain::new(0, 0));

    let reif = engine.new_variable(IntervalDomain::new(0, 0));
    let mut ctx = MockIntCtx::new()
        .with_domain(left, vec![8, 9])
        .with_domain(right, vec![1, 2])
        .with_open_singleton(reif, 0);
    let mut le = ReifiedLessEqualPropagator::new(left, right, reif);
    assert_ne!(le.propagate(&mut ctx), PropagationStatus::Failure);

    let reif2 = engine.new_variable(IntervalDomain::new(0, 0));
    let mut lt = ReifiedLessThanPropagator::new(left, right, reif2);
    let mut ctx2 = MockIntCtx::new()
        .with_domain(left, vec![8, 9])
        .with_domain(right, vec![1, 2])
        .with_open_singleton(reif2, 0);
    assert_ne!(lt.propagate(&mut ctx2), PropagationStatus::Failure);

    let reif3 = engine.new_variable(IntervalDomain::new(0, 0));
    let mut ne = ReifiedNotEqualPropagator::new(left, right, reif3);
    let mut ctx3 = MockIntCtx::new()
        .with_domain(left, vec![1, 2, 3])
        .with_domain(right, vec![1, 2, 3])
        .with_open_singleton(reif3, 0);
    assert_ne!(ne.propagate(&mut ctx3), PropagationStatus::Failure);

    let reif4 = engine.new_variable(IntervalDomain::new(0, 0));
    let mut eq = ReifiedEqualityPropagator::new(left, right, reif4);
    let mut ctx4 = MockIntCtx::new()
        .with_domain(left, vec![1, 2])
        .with_domain(right, vec![5, 6])
        .with_open_singleton(reif4, 0);
    assert_ne!(eq.propagate(&mut ctx4), PropagationStatus::Failure);
}

#[test]
fn mock_open_singleton_reif_inference_with_fixed_operands() {

    let mut engine = Engine::new();
    let left = engine.new_variable(IntervalDomain::new(0, 0));
    let right = engine.new_variable(IntervalDomain::new(0, 0));
    let reif = engine.new_variable(IntervalDomain::new(0, 0));
    let mut ctx = MockIntCtx::new()
        .with_domain(left, vec![3])
        .with_domain(right, vec![5])
        .with_domain(reif, vec![0, 1])
        .with_fixed(left, 3)
        .with_fixed(right, 5);
    let mut le = ReifiedLessEqualPropagator::new(left, right, reif);
    assert_eq!(le.propagate(&mut ctx), PropagationStatus::OkChanged);
    assert_eq!(ctx.domain_values(reif), vec![1]);

    let reif2 = engine.new_variable(IntervalDomain::new(0, 0));
    let mut ctx2 = MockIntCtx::new()
        .with_domain(left, vec![3])
        .with_domain(right, vec![5])
        .with_domain(reif2, vec![0, 1])
        .with_fixed(left, 3)
        .with_fixed(right, 5);
    let mut lt = ReifiedLessThanPropagator::new(left, right, reif2);
    assert_eq!(lt.propagate(&mut ctx2), PropagationStatus::OkChanged);
    assert_eq!(ctx2.domain_values(reif2), vec![1]);
}

#[test]
fn mock_reified_not_equal_domains_equal_infers_false() {

    let mut engine = Engine::new();
    let left = engine.new_variable(IntervalDomain::new(0, 0));
    let right = engine.new_variable(IntervalDomain::new(0, 0));
    let reif = engine.new_variable(IntervalDomain::new(0, 0));
    let mut ctx = MockIntCtx::new()
        .with_domain(left, vec![4])
        .with_domain(right, vec![4])
        .with_domain(reif, vec![0, 1])
        .with_fixed(left, 4)
        .with_fixed(right, 4);
    let mut prop = ReifiedNotEqualPropagator::new(left, right, reif);
    assert_eq!(prop.propagate(&mut ctx), PropagationStatus::OkChanged);
    assert_eq!(ctx.domain_values(reif), vec![0]);
}

#[test]
fn mock_reified_not_equal_empty_operand_fails() {

    let mut engine = Engine::new();
    let left = engine.new_variable(IntervalDomain::new(0, 0));
    let right = engine.new_variable(IntervalDomain::new(0, 0));
    let reif = engine.new_variable(IntervalDomain::new(0, 0));
    let mut ctx = MockIntCtx::new()
        .with_domain(left, vec![])
        .with_domain(right, vec![1, 2])
        .with_open_singleton(reif, 1);
    let mut prop = ReifiedNotEqualPropagator::new(left, right, reif);
    assert_eq!(prop.propagate(&mut ctx), PropagationStatus::Failure);
}

#[test]
fn mock_propagate_equal_syncs_from_right_domain() {

    let mut engine = Engine::new();
    let left = engine.new_variable(IntervalDomain::new(0, 0));
    let right = engine.new_variable(IntervalDomain::new(0, 0));
    let mut ctx = MockIntCtx::new()
        .with_domain(left, vec![1, 2, 3, 4, 5, 6])
        .with_domain(right, vec![4, 5]);
    assert!(propagate_equal(&mut ctx, left, right));
    assert_eq!(ctx.domain_values(right), vec![4, 5]);
}

#[test]
fn mock_propagate_equal_tightens_right_above_from_left_max() {

    let mut engine = Engine::new();
    let left = engine.new_variable(IntervalDomain::new(0, 0));
    let right = engine.new_variable(IntervalDomain::new(0, 0));
    let mut ctx = MockIntCtx::new()
        .with_domain(left, vec![4, 5])
        .with_domain(right, vec![4, 5, 6]);
    assert!(propagate_equal(&mut ctx, left, right));
    assert_eq!(ctx.domain_values(right), vec![4, 5]);
}

#[test]
fn mock_propagate_less_equal_remove_above_left_from_right_min() {

    let mut engine = Engine::new();
    let left = engine.new_variable(IntervalDomain::new(0, 0));
    let right = engine.new_variable(IntervalDomain::new(0, 0));
    let mut ctx = MockIntCtx::new()
        .with_domain(left, vec![2, 3, 4, 10])
        .with_domain(right, vec![5, 6, 7]);
    assert!(propagate_less_equal(&mut ctx, left, right));
}

#[test]
fn mock_propagate_greater_than_remove_below_left_from_right_max() {

    let mut engine = Engine::new();
    let left = engine.new_variable(IntervalDomain::new(0, 0));
    let right = engine.new_variable(IntervalDomain::new(0, 0));
    let mut ctx = MockIntCtx::new()
        .with_domain(left, vec![1, 2, 3, 4, 5])
        .with_domain(right, vec![2, 3, 4]);
    assert!(propagate_greater_than(&mut ctx, left, right));
}

#[test]
fn mock_propagate_less_than_fixed_right_remove_above_left() {

    let mut engine = Engine::new();
    let left = engine.new_variable(IntervalDomain::new(0, 0));
    let right = engine.new_variable(IntervalDomain::new(0, 0));
    let mut ctx = MockIntCtx::new()
        .with_domain(left, vec![1, 2, 3, 4, 5])
        .with_domain(right, vec![3])
        .with_fixed(right, 3);
    assert!(propagate_less_than(&mut ctx, left, right));
    assert_eq!(ctx.domain_values(left), vec![1, 2]);
}

#[test]
fn mock_propagate_less_equal_and_greater_than_branches() {

    let mut engine = Engine::new();
    let left = engine.new_variable(IntervalDomain::new(0, 0));
    let right = engine.new_variable(IntervalDomain::new(0, 0));

    let mut ctx = MockIntCtx::new()
        .with_domain(left, vec![5, 6, 7])
        .with_domain(right, vec![1, 2, 3, 6]);
    assert!(propagate_greater_than(&mut ctx, left, right));
    assert!(ctx.domain_values(left).iter().all(|&v| v >= 5));
}

#[test]
fn mock_propagate_less_than_fixed_value_branches() {

    let mut engine = Engine::new();
    let left = engine.new_variable(IntervalDomain::new(0, 0));
    let right = engine.new_variable(IntervalDomain::new(0, 0));
    let mut ctx = MockIntCtx::new()
        .with_domain(left, vec![3])
        .with_domain(right, vec![1, 2, 3, 4, 5])
        .with_fixed(left, 3);
    assert!(propagate_less_than(&mut ctx, left, right));
    assert_eq!(ctx.domain_values(right), vec![4, 5]);

    let mut ctx = MockIntCtx::new()
        .with_domain(left, vec![1, 2, 3, 4, 5])
        .with_domain(right, vec![3])
        .with_fixed(right, 3);
    assert!(propagate_less_than(&mut ctx, left, right));
    assert_eq!(ctx.domain_values(left), vec![1, 2]);
}

#[test]
fn mock_invalid_open_singleton_reif_value_ignored() {

    let mut engine = Engine::new();
    let left = engine.new_variable(IntervalDomain::new(0, 0));
    let right = engine.new_variable(IntervalDomain::new(0, 0));
    let reif = engine.new_variable(IntervalDomain::new(0, 0));
    let mut ctx = MockIntCtx::new()
        .with_domain(left, vec![1, 2, 3])
        .with_domain(right, vec![1, 2, 3])
        .with_open_singleton(reif, 2);
    let mut le = ReifiedLessEqualPropagator::new(left, right, reif);
    assert_eq!(le.propagate(&mut ctx), PropagationStatus::OkNoChange);

    let reif2 = engine.new_variable(IntervalDomain::new(0, 0));
    let mut lt = ReifiedLessThanPropagator::new(left, right, reif2);
    let mut ctx2 = MockIntCtx::new()
        .with_domain(left, vec![1, 2, 3])
        .with_domain(right, vec![1, 2, 3])
        .with_open_singleton(reif2, 2);
    assert_eq!(lt.propagate(&mut ctx2), PropagationStatus::OkNoChange);
}

#[test]
fn mock_reified_lt_empty_operand_fails() {

    let mut engine = Engine::new();
    let left = engine.new_variable(IntervalDomain::new(0, 0));
    let right = engine.new_variable(IntervalDomain::new(0, 0));
    let reif = engine.new_variable(IntervalDomain::new(0, 0));
    let mut ctx = MockIntCtx::new()
        .with_domain(left, vec![])
        .with_domain(right, vec![1, 2])
        .with_open_singleton(reif, 1);
    let mut prop = ReifiedLessThanPropagator::new(left, right, reif);
    assert_eq!(prop.propagate(&mut ctx), PropagationStatus::Failure);
}

// ---- nogood.rs
#[test]
fn detects_fully_matching_nogood() {
    let mut engine = Engine::new();
    let a = engine.new_variable(IntervalDomain::new(1, 3));
    let b = engine.new_variable(IntervalDomain::new(1, 3));
    engine.add_propagator(Box::new(NogoodPropagator::new(vec![
        NogoodLiteral {
            variable: a,
            value: 1,
        },
        NogoodLiteral {
            variable: b,
            value: 2,
        },
    ])));

    engine.fix_variable(a, 1).unwrap();
    let status = engine.fix_variable(b, 2).unwrap();
    assert_eq!(status, PropagationStatus::Failure);
}

#[test]
fn nogood_prunes_last_open_literal() {
    let mut engine = Engine::new();
    let a = engine.new_variable(IntervalDomain::fix(1));
    let b = engine.new_variable(IntervalDomain::new(1, 3));
    engine.add_propagator(Box::new(NogoodPropagator::new(vec![
        NogoodLiteral {
            variable: a,
            value: 1,
        },
        NogoodLiteral {
            variable: b,
            value: 2,
        },
    ])));

    engine.propagate_all().unwrap();
    assert!(!engine.hybrid_domain(b).contains(2));
}

#[test]
fn mismatched_fixed_value_no_change() {
    let mut engine = Engine::new();
    let a = engine.new_variable(IntervalDomain::fix(2));
    let b = engine.new_variable(IntervalDomain::new(1, 3));
    engine.add_propagator(Box::new(NogoodPropagator::new(vec![
        NogoodLiteral {
            variable: a,
            value: 1,
        },
        NogoodLiteral {
            variable: b,
            value: 2,
        },
    ])));

    assert_eq!(
        engine.propagate_all().unwrap(),
        PropagationStatus::OkNoChange
    );
}

#[test]
fn multiple_open_literals_no_change() {
    let mut engine = Engine::new();
    let a = engine.new_variable(IntervalDomain::new(1, 3));
    let b = engine.new_variable(IntervalDomain::new(1, 3));
    let c = engine.new_variable(IntervalDomain::new(1, 3));
    engine.add_propagator(Box::new(NogoodPropagator::new(vec![
        NogoodLiteral {
            variable: a,
            value: 1,
        },
        NogoodLiteral {
            variable: b,
            value: 2,
        },
        NogoodLiteral {
            variable: c,
            value: 3,
        },
    ])));

    assert_eq!(
        engine.propagate_all().unwrap(),
        PropagationStatus::OkNoChange
    );
}

#[test]
fn prune_singleton_to_empty_domain_fails() {
    let mut engine = Engine::new();
    let a = engine.new_variable(IntervalDomain::fix(1));
    let b = engine.new_variable(IntervalDomain::new(2, 2));
    let mut prop = NogoodPropagator::new(vec![
        NogoodLiteral {
            variable: a,
            value: 1,
        },
        NogoodLiteral {
            variable: b,
            value: 2,
        },
    ]);
    let mut ctx = MutEngine(&mut engine);
    assert_eq!(prop.propagate(&mut ctx), PropagationStatus::Failure);
}

#[test]
fn prune_to_empty_domain_fails() {
    let mut engine = Engine::new();
    let a = engine.new_variable(IntervalDomain::fix(1));
    let b = engine.new_variable(IntervalDomain::fix(2));
    engine.add_propagator(Box::new(NogoodPropagator::new(vec![
        NogoodLiteral {
            variable: a,
            value: 1,
        },
        NogoodLiteral {
            variable: b,
            value: 2,
        },
    ])));

    assert_eq!(engine.propagate_all().unwrap(), PropagationStatus::Failure);
}

// ---- clause.rs
#[test]
fn watched_variables_are_deduplicated() {
    let mut engine = Engine::new();
    let a = engine.new_variable(IntervalDomain::new(1, 3));
    let propagator = ClausePropagator::new(vec![
        NogoodLiteral {
            variable: a,
            value: 1,
        },
        NogoodLiteral {
            variable: a,
            value: 2,
        },
    ]);
    assert_eq!(propagator.watched_variables(), &[a]);
    assert_eq!(propagator.priority(), 1);
}

#[test]
fn detects_fully_matching_clause() {
    let mut engine = Engine::new();
    let a = engine.new_variable(IntervalDomain::new(1, 3));
    let b = engine.new_variable(IntervalDomain::new(1, 3));
    engine.add_propagator(Box::new(ClausePropagator::new(vec![
        NogoodLiteral {
            variable: a,
            value: 1,
        },
        NogoodLiteral {
            variable: b,
            value: 2,
        },
    ])));

    engine.fix_variable(a, 1).unwrap();
    let status = engine.fix_variable(b, 2).unwrap();
    assert_eq!(status, PropagationStatus::Failure);
}

#[test]
fn clause_prunes_last_open_literal() {
    let mut engine = Engine::new();
    let a = engine.new_variable(IntervalDomain::fix(1));
    let b = engine.new_variable(IntervalDomain::new(1, 3));
    engine.add_propagator(Box::new(ClausePropagator::new(vec![
        NogoodLiteral {
            variable: a,
            value: 1,
        },
        NogoodLiteral {
            variable: b,
            value: 2,
        },
    ])));

    engine.propagate_all().unwrap();
    assert!(!engine.hybrid_domain(b).contains(2));
}

// ---- linear_scalar.rs
#[test]
fn reified_scalar_le_singleton_true_propagates() {
    let mut engine = Engine::new();
    let x = engine.new_variable(IntervalDomain::new(0, 10));
    let y = engine.new_variable(IntervalDomain::new(0, 10));
    let reif = engine.new_variable(IntervalDomain::new(1, 1));
    engine.add_propagator(Box::new(ReifiedScalarLePropagator::new(
        vec![2, 1],
        vec![x, y],
        6,
        reif,
    )));
    assert_eq!(
        engine.propagate_all().unwrap(),
        PropagationStatus::OkChanged
    );
}

#[test]
fn reified_scalar_le_fixed_true_infeasible_fails() {
    let mut engine = Engine::new();
    let x = engine.new_variable(IntervalDomain::new(5, 10));
    let y = engine.new_variable(IntervalDomain::new(5, 10));
    let reif = engine.new_variable(IntervalDomain::fix(1));
    engine.add_propagator(Box::new(ReifiedScalarLePropagator::new(
        vec![1, 1],
        vec![x, y],
        3,
        reif,
    )));
    assert_eq!(engine.propagate_all().unwrap(), PropagationStatus::Failure);
}

#[test]
fn reified_scalar_le_singleton_false_infeasible_fails() {
    let mut engine = Engine::new();
    let x = engine.new_variable(IntervalDomain::new(1, 2));
    let y = engine.new_variable(IntervalDomain::new(1, 2));
    let reif = engine.new_variable(IntervalDomain::new(0, 0));
    engine.add_propagator(Box::new(ReifiedScalarLePropagator::new(
        vec![1, 1],
        vec![x, y],
        10,
        reif,
    )));
    assert_eq!(engine.propagate_all().unwrap(), PropagationStatus::Failure);
}

#[test]
fn reified_scalar_ge_singleton_true_propagates() {
    let mut engine = Engine::new();
    let x = engine.new_variable(IntervalDomain::new(0, 10));
    let y = engine.new_variable(IntervalDomain::new(0, 10));
    let reif = engine.new_variable(IntervalDomain::new(1, 1));
    engine.add_propagator(Box::new(ReifiedScalarGePropagator::new(
        vec![2, 1],
        vec![x, y],
        15,
        reif,
    )));
    assert_eq!(
        engine.propagate_all().unwrap(),
        PropagationStatus::OkChanged
    );
}

#[test]
fn reified_scalar_ge_fixed_false_infeasible_fails() {
    let mut engine = Engine::new();
    let x = engine.new_variable(IntervalDomain::fix(3));
    let y = engine.new_variable(IntervalDomain::fix(3));
    let reif = engine.new_variable(IntervalDomain::fix(0));
    engine.add_propagator(Box::new(ReifiedScalarGePropagator::new(
        vec![1, 1],
        vec![x, y],
        5,
        reif,
    )));
    assert_eq!(engine.propagate_all().unwrap(), PropagationStatus::Failure);
}

#[test]
fn reified_scalar_ge_singleton_false_propagates() {
    let mut engine = Engine::new();
    let x = engine.new_variable(IntervalDomain::new(0, 10));
    let y = engine.new_variable(IntervalDomain::new(0, 10));
    let reif = engine.new_variable(IntervalDomain::new(0, 0));
    engine.add_propagator(Box::new(ReifiedScalarGePropagator::new(
        vec![2, 1],
        vec![x, y],
        6,
        reif,
    )));
    assert_eq!(
        engine.propagate_all().unwrap(),
        PropagationStatus::OkChanged
    );
}

#[test]
fn reified_scalar_eq_singleton_true_propagates() {
    let mut engine = Engine::new();
    let x = engine.new_variable(IntervalDomain::new(0, 10));
    let y = engine.new_variable(IntervalDomain::new(0, 10));
    let reif = engine.new_variable(IntervalDomain::new(1, 1));
    engine.add_propagator(Box::new(ReifiedScalarEqPropagator::new(
        vec![2, 1],
        vec![x, y],
        6,
        reif,
    )));
    assert_eq!(
        engine.propagate_all().unwrap(),
        PropagationStatus::OkChanged
    );
}

#[test]
fn reified_scalar_eq_singleton_false_propagates() {
    let mut engine = Engine::new();
    let x = engine.new_variable(IntervalDomain::new(1, 3));
    let y = engine.new_variable(IntervalDomain::fix(2));
    let reif = engine.new_variable(IntervalDomain::new(0, 0));
    engine.add_propagator(Box::new(ReifiedScalarEqPropagator::new(
        vec![1, 1],
        vec![x, y],
        4,
        reif,
    )));
    assert_eq!(
        engine.propagate_all().unwrap(),
        PropagationStatus::OkChanged
    );
}

#[test]
fn reified_scalar_eq_empty_domain_fails() {
    let mut engine = Engine::new();
    let x = engine.new_variable(IntervalDomain::new(1, 0));
    let y = engine.new_variable(IntervalDomain::new(1, 3));
    let reif = engine.new_variable(IntervalDomain::new(0, 1));
    engine.add_propagator(Box::new(ReifiedScalarEqPropagator::new(
        vec![1, 1],
        vec![x, y],
        4,
        reif,
    )));
    assert_eq!(engine.propagate_all().unwrap(), PropagationStatus::Failure);
}

#[test]
fn scalar_le_empty_domain_after_propagation_fails() {
    let mut engine = Engine::new();
    let x = engine.new_variable(IntervalDomain::new(1, 0));
    let y = engine.new_variable(IntervalDomain::new(1, 3));
    engine.add_propagator(Box::new(LinearScalarLePropagator::new(
        vec![1, 1],
        vec![x, y],
        10,
    )));
    assert_eq!(engine.propagate_all().unwrap(), PropagationStatus::Failure);
}

#[test]
fn scalar_not_eq_prunes_with_holey_domain() {
    let mut engine = Engine::new();
    let x = engine.new_variable(IntervalDomain::new(1, 5).remove(2).remove(4));
    let y = engine.new_variable(IntervalDomain::fix(3));
    let reif = engine.new_variable(IntervalDomain::new(0, 0));
    engine.add_propagator(Box::new(ReifiedScalarEqPropagator::new(
        vec![1, 1],
        vec![x, y],
        6,
        reif,
    )));
    engine.propagate_all().unwrap();
    assert!(!engine.hybrid_domain(x).contains(3));
}

#[test]
fn weighted_sum_upper_bound_tightens_domains() {
    let mut engine = Engine::new();
    let x = engine.new_variable(IntervalDomain::new(0, 10));
    let y = engine.new_variable(IntervalDomain::new(0, 10));
    engine.add_propagator(Box::new(LinearScalarLePropagator::new(
        vec![2, 1],
        vec![x, y],
        6,
    )));
    engine.propagate_all().unwrap();
    assert!(engine.hybrid_domain(x).max().unwrap() <= 3);
    assert!(engine.hybrid_domain(y).max().unwrap() <= 6);
}

#[test]
fn reified_scalar_le_tightens_reif_when_sum_always_below() {
    let mut engine = Engine::new();
    let x = engine.new_variable(IntervalDomain::new(1, 2));
    let y = engine.new_variable(IntervalDomain::new(1, 2));
    let reif = engine.new_variable(IntervalDomain::new(0, 1));
    engine.add_propagator(Box::new(ReifiedScalarLePropagator::new(
        vec![1, 1],
        vec![x, y],
        10,
        reif,
    )));
    engine.propagate_all().unwrap();
    assert_eq!(engine.hybrid_domain(reif).min(), Some(1));
    assert_eq!(engine.hybrid_domain(reif).max(), Some(1));
}

#[test]
fn reified_scalar_le_propagates_when_reif_fixed() {
    let mut engine = Engine::new();
    let x = engine.new_variable(IntervalDomain::new(0, 10));
    let y = engine.new_variable(IntervalDomain::new(0, 10));
    let reif = engine.new_variable(IntervalDomain::new(1, 1));
    engine.add_propagator(Box::new(ReifiedScalarLePropagator::new(
        vec![2, 1],
        vec![x, y],
        6,
        reif,
    )));
    engine.propagate_all().unwrap();
    assert!(engine.hybrid_domain(x).max().unwrap() <= 3);
}

#[test]
fn reified_scalar_eq_reif_zero_prunes_forcing_values() {
    let mut engine = Engine::new();
    let x = engine.new_variable(IntervalDomain::new(1, 3));
    let y = engine.new_variable(IntervalDomain::fix(2));
    let reif = engine.new_variable(IntervalDomain::new(0, 0));
    engine.add_propagator(Box::new(ReifiedScalarEqPropagator::new(
        vec![1, 1],
        vec![x, y],
        4,
        reif,
    )));
    engine.propagate_all().unwrap();
    assert!(!engine.hybrid_domain(x).contains(2));
}

#[test]
fn reified_scalar_eq_fails_when_sum_fixed_and_reif_zero() {
    let mut engine = Engine::new();
    let x = engine.new_variable(IntervalDomain::new(2, 2));
    let y = engine.new_variable(IntervalDomain::new(3, 3));
    let reif = engine.new_variable(IntervalDomain::new(0, 0));
    engine.add_propagator(Box::new(ReifiedScalarEqPropagator::new(
        vec![1, 1],
        vec![x, y],
        5,
        reif,
    )));
    assert_eq!(engine.propagate_all().unwrap(), PropagationStatus::Failure);
}

#[test]
fn weighted_sum_equality_fixes_total() {
    let mut engine = Engine::new();
    let x = engine.new_variable(IntervalDomain::new(1, 4));
    let y = engine.new_variable(IntervalDomain::new(1, 4));
    let z = engine.new_variable(IntervalDomain::new(1, 4));
    engine.add_propagator(Box::new(LinearScalarLePropagator::new(
        vec![1, 1, 1],
        vec![x, y, z],
        6,
    )));
    engine.add_propagator(Box::new(LinearScalarGePropagator::new(
        vec![1, 1, 1],
        vec![x, y, z],
        6,
    )));
    engine.propagate_all().unwrap();
    assert_eq!(engine.hybrid_domain(x).max(), Some(4));
    assert_eq!(engine.hybrid_domain(y).max(), Some(4));
}

#[test]
fn weighted_sum_lower_bound_tightens_domains() {
    let mut engine = Engine::new();
    let x = engine.new_variable(IntervalDomain::new(0, 10));
    let y = engine.new_variable(IntervalDomain::new(0, 10));
    engine.add_propagator(Box::new(LinearScalarGePropagator::new(
        vec![2, 1],
        vec![x, y],
        15,
    )));
    engine.propagate_all().unwrap();
    assert!(engine.hybrid_domain(x).min().unwrap() >= 3);
    assert!(engine.hybrid_domain(y).min().unwrap() >= 0);
}

#[test]
fn scalar_ge_infeasible_fails() {
    let mut engine = Engine::new();
    let x = engine.new_variable(IntervalDomain::new(1, 2));
    let y = engine.new_variable(IntervalDomain::new(1, 2));
    engine.add_propagator(Box::new(LinearScalarGePropagator::new(
        vec![1, 1],
        vec![x, y],
        10,
    )));
    assert_eq!(engine.propagate_all().unwrap(), PropagationStatus::Failure);
}

#[test]
fn scalar_le_infeasible_fails() {
    let mut engine = Engine::new();
    let x = engine.new_variable(IntervalDomain::new(5, 10));
    let y = engine.new_variable(IntervalDomain::new(5, 10));
    engine.add_propagator(Box::new(LinearScalarLePropagator::new(
        vec![1, 1],
        vec![x, y],
        3,
    )));
    assert_eq!(engine.propagate_all().unwrap(), PropagationStatus::Failure);
}

#[test]
fn negative_coeff_le_tightens_lower_bound() {
    let mut engine = Engine::new();
    let x = engine.new_variable(IntervalDomain::new(1, 5));
    let y = engine.new_variable(IntervalDomain::new(0, 10));
    engine.add_propagator(Box::new(LinearScalarLePropagator::new(
        vec![-1, 1],
        vec![x, y],
        3,
    )));
    engine.propagate_all().unwrap();
    assert_eq!(engine.hybrid_domain(y).max(), Some(8));
}

#[test]
fn negative_coeff_ge_tightens_upper_bound() {
    let mut engine = Engine::new();
    let x = engine.new_variable(IntervalDomain::new(0, 10));
    let y = engine.new_variable(IntervalDomain::new(0, 10));
    engine.add_propagator(Box::new(LinearScalarGePropagator::new(
        vec![1, -1],
        vec![x, y],
        5,
    )));
    engine.propagate_all().unwrap();
    assert_eq!(engine.hybrid_domain(y).max(), Some(5));
}

#[test]
fn zero_coeff_ignored_in_propagation() {
    let mut engine = Engine::new();
    let x = engine.new_variable(IntervalDomain::new(0, 100));
    let y = engine.new_variable(IntervalDomain::new(0, 10));
    engine.add_propagator(Box::new(LinearScalarLePropagator::new(
        vec![0, 1],
        vec![x, y],
        5,
    )));
    engine.propagate_all().unwrap();
    assert_eq!(engine.hybrid_domain(x).min(), Some(0));
    assert_eq!(engine.hybrid_domain(x).max(), Some(100));
    assert_eq!(engine.hybrid_domain(y).max(), Some(5));
}

#[test]
fn reified_scalar_le_false_forces_ge() {
    let mut engine = Engine::new();
    let x = engine.new_variable(IntervalDomain::new(0, 10));
    let y = engine.new_variable(IntervalDomain::new(0, 10));
    let reif = engine.new_variable(IntervalDomain::new(0, 0));
    engine.add_propagator(Box::new(ReifiedScalarLePropagator::new(
        vec![2, 1],
        vec![x, y],
        14,
        reif,
    )));
    engine.propagate_all().unwrap();
    assert!(engine.hybrid_domain(x).min().unwrap() >= 3);
}

#[test]
fn reified_scalar_le_infers_false() {
    let mut engine = Engine::new();
    let x = engine.new_variable(IntervalDomain::new(5, 10));
    let y = engine.new_variable(IntervalDomain::new(5, 10));
    let reif = engine.new_variable(IntervalDomain::new(0, 1));
    engine.add_propagator(Box::new(ReifiedScalarLePropagator::new(
        vec![1, 1],
        vec![x, y],
        3,
        reif,
    )));
    engine.propagate_all().unwrap();
    assert_eq!(engine.hybrid_domain(reif).fixed_value(), Some(0));
}

#[test]
fn reified_scalar_ge_tightens_reif_when_sum_always_above() {
    let mut engine = Engine::new();
    let x = engine.new_variable(IntervalDomain::new(5, 10));
    let y = engine.new_variable(IntervalDomain::new(5, 10));
    let reif = engine.new_variable(IntervalDomain::new(0, 1));
    engine.add_propagator(Box::new(ReifiedScalarGePropagator::new(
        vec![1, 1],
        vec![x, y],
        3,
        reif,
    )));
    engine.propagate_all().unwrap();
    assert_eq!(engine.hybrid_domain(reif).fixed_value(), Some(1));
}

#[test]
fn reified_scalar_ge_propagates_when_reif_fixed() {
    let mut engine = Engine::new();
    let x = engine.new_variable(IntervalDomain::new(0, 10));
    let y = engine.new_variable(IntervalDomain::new(0, 10));
    let reif = engine.new_variable(IntervalDomain::new(1, 1));
    engine.add_propagator(Box::new(ReifiedScalarGePropagator::new(
        vec![2, 1],
        vec![x, y],
        15,
        reif,
    )));
    engine.propagate_all().unwrap();
    assert!(engine.hybrid_domain(x).min().unwrap() >= 3);
}

#[test]
fn reified_scalar_ge_false_forces_le() {
    let mut engine = Engine::new();
    let x = engine.new_variable(IntervalDomain::new(0, 10));
    let y = engine.new_variable(IntervalDomain::new(0, 10));
    let reif = engine.new_variable(IntervalDomain::new(0, 0));
    engine.add_propagator(Box::new(ReifiedScalarGePropagator::new(
        vec![2, 1],
        vec![x, y],
        6,
        reif,
    )));
    engine.propagate_all().unwrap();
    assert!(engine.hybrid_domain(x).max().unwrap() <= 2);
}

#[test]
fn reified_scalar_ge_infers_false() {
    let mut engine = Engine::new();
    let x = engine.new_variable(IntervalDomain::new(1, 2));
    let y = engine.new_variable(IntervalDomain::new(1, 2));
    let reif = engine.new_variable(IntervalDomain::new(0, 1));
    engine.add_propagator(Box::new(ReifiedScalarGePropagator::new(
        vec![1, 1],
        vec![x, y],
        10,
        reif,
    )));
    engine.propagate_all().unwrap();
    assert_eq!(engine.hybrid_domain(reif).fixed_value(), Some(0));
}

#[test]
fn reified_scalar_eq_propagates_when_reif_fixed() {
    let mut engine = Engine::new();
    let x = engine.new_variable(IntervalDomain::new(0, 10));
    let y = engine.new_variable(IntervalDomain::new(0, 10));
    let reif = engine.new_variable(IntervalDomain::new(1, 1));
    engine.add_propagator(Box::new(ReifiedScalarEqPropagator::new(
        vec![2, 1],
        vec![x, y],
        6,
        reif,
    )));
    engine.propagate_all().unwrap();
    assert!(engine.hybrid_domain(x).max().unwrap() <= 3);
    assert!(engine.hybrid_domain(y).max().unwrap() <= 6);
}

#[test]
fn reified_scalar_eq_infers_true() {
    let mut engine = Engine::new();
    let x = engine.new_variable(IntervalDomain::new(2, 2));
    let y = engine.new_variable(IntervalDomain::new(3, 3));
    let reif = engine.new_variable(IntervalDomain::new(0, 1));
    engine.add_propagator(Box::new(ReifiedScalarEqPropagator::new(
        vec![1, 1],
        vec![x, y],
        5,
        reif,
    )));
    engine.propagate_all().unwrap();
    assert_eq!(engine.hybrid_domain(reif).fixed_value(), Some(1));
}

#[test]
fn reified_scalar_eq_infers_false() {
    let mut engine = Engine::new();
    let x = engine.new_variable(IntervalDomain::new(1, 2));
    let y = engine.new_variable(IntervalDomain::new(1, 2));
    let reif = engine.new_variable(IntervalDomain::new(0, 1));
    engine.add_propagator(Box::new(ReifiedScalarEqPropagator::new(
        vec![1, 1],
        vec![x, y],
        10,
        reif,
    )));
    engine.propagate_all().unwrap();
    assert_eq!(engine.hybrid_domain(reif).fixed_value(), Some(0));
}

#[test]
fn negative_coeff_div_ceil_tightens_ge_lower_bound() {
    let mut engine = Engine::new();
    let x = engine.new_variable(IntervalDomain::new(-10, 10));
    let y = engine.new_variable(IntervalDomain::new(0, 2));
    engine.add_propagator(Box::new(LinearScalarGePropagator::new(
        vec![-3, 1],
        vec![x, y],
        1,
    )));
    engine.propagate_all().unwrap();
    assert!(engine.hybrid_domain(x).max().unwrap() <= 0);
}

#[test]
fn negative_coeff_div_ceil_tightens_le_lower_bound() {
    let mut engine = Engine::new();
    let x = engine.new_variable(IntervalDomain::new(-10, 10));
    let y = engine.new_variable(IntervalDomain::new(0, 20));
    engine.add_propagator(Box::new(LinearScalarLePropagator::new(
        vec![-3, 1],
        vec![x, y],
        7,
    )));
    engine.propagate_all().unwrap();
    assert!(engine.hybrid_domain(x).min().unwrap() >= -2);
}

#[test]
fn scalar_not_eq_prunes_forcing_value() {
    let mut engine = Engine::new();
    let x = engine.new_variable(IntervalDomain::new(1, 5));
    let y = engine.new_variable(IntervalDomain::fix(3));
    let reif = engine.new_variable(IntervalDomain::new(0, 0));
    engine.add_propagator(Box::new(ReifiedScalarEqPropagator::new(
        vec![1, 1],
        vec![x, y],
        6,
        reif,
    )));
    engine.propagate_all().unwrap();
    assert!(!engine.hybrid_domain(x).contains(3));
}

#[test]
fn scalar_le_failure_on_empty_domain() {

    let mut engine = Engine::new();
    let x = engine.new_variable(IntervalDomain::new(1, 0));
    let y = engine.new_variable(IntervalDomain::new(1, 5));
    let mut ctx = MutEngine(&mut engine);
    assert_eq!(
        propagate_scalar_le(&mut ctx, &vec![1, 1], &vec![x, y], 10),
        PropagationStatus::Failure
    );
}

#[test]
fn scalar_ge_failure_on_empty_domain() {

    let mut engine = Engine::new();
    let x = engine.new_variable(IntervalDomain::new(1, 0));
    let y = engine.new_variable(IntervalDomain::new(1, 5));
    let mut ctx = MutEngine(&mut engine);
    assert_eq!(
        propagate_scalar_ge(&mut ctx, &vec![1, 1], &vec![x, y], 1),
        PropagationStatus::Failure
    );
}

#[test]
fn scalar_not_eq_failure_on_empty_domain() {

    let mut engine = Engine::new();
    let x = engine.new_variable(IntervalDomain::new(1, 0));
    let y = engine.new_variable(IntervalDomain::new(1, 5));
    let mut ctx = MutEngine(&mut engine);
    assert_eq!(
        propagate_scalar_not_eq(&mut ctx, &vec![1, 1], &vec![x, y], 6),
        PropagationStatus::Failure
    );
}

#[test]
fn mock_reified_scalar_le_singleton_true_propagates() {

    let mut engine = Engine::new();
    let x = engine.new_variable(IntervalDomain::new(0, 0));
    let y = engine.new_variable(IntervalDomain::new(0, 0));
    let reif = engine.new_variable(IntervalDomain::new(0, 0));
    let mut ctx = MockIntCtx::new()
        .with_domain(x, vec![0, 1, 2, 3, 4])
        .with_domain(y, vec![0, 1, 2, 3, 4])
        .with_domain(reif, vec![1]);
    let mut prop = ReifiedScalarLePropagator::new(vec![1, 1], vec![x, y], 5, reif);
    assert_ne!(prop.propagate(&mut ctx), PropagationStatus::Failure);
}

#[test]
fn mock_reified_scalar_le_singleton_false_propagates() {

    let mut engine = Engine::new();
    let x = engine.new_variable(IntervalDomain::new(0, 0));
    let y = engine.new_variable(IntervalDomain::new(0, 0));
    let reif = engine.new_variable(IntervalDomain::new(0, 0));
    let mut ctx = MockIntCtx::new()
        .with_domain(x, vec![0, 1, 2])
        .with_domain(y, vec![0, 1, 2])
        .with_domain(reif, vec![0]);
    let mut prop = ReifiedScalarLePropagator::new(vec![1, 1], vec![x, y], 2, reif);
    assert_ne!(prop.propagate(&mut ctx), PropagationStatus::Failure);
}

#[test]
fn mock_reified_scalar_ge_singleton_true_propagates() {

    let mut engine = Engine::new();
    let x = engine.new_variable(IntervalDomain::new(0, 0));
    let y = engine.new_variable(IntervalDomain::new(0, 0));
    let reif = engine.new_variable(IntervalDomain::new(0, 0));
    let mut ctx = MockIntCtx::new()
        .with_domain(x, vec![0, 1, 2, 3, 4, 5])
        .with_domain(y, vec![0, 1, 2, 3, 4, 5])
        .with_domain(reif, vec![1]);
    let mut prop = ReifiedScalarGePropagator::new(vec![1, 1], vec![x, y], 3, reif);
    assert_ne!(prop.propagate(&mut ctx), PropagationStatus::Failure);
}

#[test]
fn mock_reified_scalar_ge_singleton_false_propagates() {

    let mut engine = Engine::new();
    let x = engine.new_variable(IntervalDomain::new(0, 0));
    let y = engine.new_variable(IntervalDomain::new(0, 0));
    let reif = engine.new_variable(IntervalDomain::new(0, 0));
    let mut ctx = MockIntCtx::new()
        .with_domain(x, vec![4, 5, 6])
        .with_domain(y, vec![4, 5, 6])
        .with_domain(reif, vec![0]);
    let mut prop = ReifiedScalarGePropagator::new(vec![1, 1], vec![x, y], 10, reif);
    assert_ne!(prop.propagate(&mut ctx), PropagationStatus::Failure);
}

#[test]
fn mock_reified_scalar_eq_singleton_true_propagates() {

    let mut engine = Engine::new();
    let x = engine.new_variable(IntervalDomain::new(0, 0));
    let y = engine.new_variable(IntervalDomain::new(0, 0));
    let reif = engine.new_variable(IntervalDomain::new(0, 0));
    let mut ctx = MockIntCtx::new()
        .with_domain(x, vec![0, 1, 2, 3, 4, 5])
        .with_domain(y, vec![0, 1, 2, 3, 4, 5])
        .with_domain(reif, vec![1]);
    let mut prop = ReifiedScalarEqPropagator::new(vec![1, 1], vec![x, y], 6, reif);
    assert_ne!(prop.propagate(&mut ctx), PropagationStatus::Failure);
}

#[test]
fn mock_reified_scalar_eq_singleton_false_propagates() {

    let mut engine = Engine::new();
    let x = engine.new_variable(IntervalDomain::new(0, 0));
    let y = engine.new_variable(IntervalDomain::new(0, 0));
    let reif = engine.new_variable(IntervalDomain::new(0, 0));
    let mut ctx = MockIntCtx::new()
        .with_domain(x, vec![1, 2, 3])
        .with_domain(y, vec![3])
        .with_domain(reif, vec![0]);
    let mut prop = ReifiedScalarEqPropagator::new(vec![1, 1], vec![x, y], 6, reif);
    assert_ne!(prop.propagate(&mut ctx), PropagationStatus::Failure);
    assert!(!ctx.values_of(&x).contains(&3));
}

#[test]
fn mock_reified_scalar_singleton_paths() {

    let mut engine = Engine::new();
    let x = engine.new_variable(IntervalDomain::new(0, 0));
    let y = engine.new_variable(IntervalDomain::new(0, 0));
    let reif = engine.new_variable(IntervalDomain::new(0, 0));
    let mut ctx = MockIntCtx::new()
        .with_domain(x, vec![0, 1, 2, 3, 4])
        .with_domain(y, vec![0, 1, 2, 3, 4])
        .with_domain(reif, vec![1]);
    let mut le = ReifiedScalarLePropagator::new(vec![1, 1], vec![x, y], 5, reif);
    assert_ne!(le.propagate(&mut ctx), PropagationStatus::Failure);

    let mut ge = ReifiedScalarGePropagator::new(vec![1, 1], vec![x, y], 3, reif);
    assert_ne!(ge.propagate(&mut ctx), PropagationStatus::Failure);

    let mut eq = ReifiedScalarEqPropagator::new(vec![1, 1], vec![x, y], 6, reif);
    assert_ne!(eq.propagate(&mut ctx), PropagationStatus::Failure);
}

#[test]
fn mock_reified_scalar_eq_singleton_false_failure_paths() {

    let mut engine = Engine::new();
    let x = engine.new_variable(IntervalDomain::new(0, 0));
    let y = engine.new_variable(IntervalDomain::new(0, 0));
    let reif = engine.new_variable(IntervalDomain::new(0, 0));
    let mut ctx = MockIntCtx::new()
        .with_domain(x, vec![3])
        .with_domain(y, vec![3])
        .with_domain(reif, vec![0]);
    let mut eq = ReifiedScalarEqPropagator::new(vec![1, 1], vec![x, y], 6, reif);
    assert_eq!(eq.propagate(&mut ctx), PropagationStatus::Failure);
}

#[test]
fn mock_reified_scalar_eq_singleton_true_both_bounds() {

    let mut engine = Engine::new();
    let x = engine.new_variable(IntervalDomain::new(0, 0));
    let y = engine.new_variable(IntervalDomain::new(0, 0));
    let reif = engine.new_variable(IntervalDomain::new(0, 0));
    let mut ctx = MockIntCtx::new()
        .with_domain(x, vec![1, 2, 3])
        .with_domain(y, vec![1, 2, 3])
        .with_domain(reif, vec![1]);
    let mut eq = ReifiedScalarEqPropagator::new(vec![1, 1], vec![x, y], 4, reif);
    assert_ne!(eq.propagate(&mut ctx), PropagationStatus::Failure);
}

#[test]
fn mock_reified_scalar_empty_operand_fails() {

    let mut engine = Engine::new();
    let x = engine.new_variable(IntervalDomain::new(0, 0));
    let y = engine.new_variable(IntervalDomain::new(0, 0));
    let reif = engine.new_variable(IntervalDomain::new(0, 0));
    let mut ctx = MockIntCtx::new()
        .with_domain(x, vec![])
        .with_domain(y, vec![1, 2, 3])
        .with_domain(reif, vec![1]);
    let mut le = ReifiedScalarLePropagator::new(vec![1, 1], vec![x, y], 5, reif);
    assert_eq!(le.propagate(&mut ctx), PropagationStatus::Failure);

    let mut ge = ReifiedScalarGePropagator::new(vec![1, 1], vec![x, y], 5, reif);
    assert_eq!(ge.propagate(&mut ctx), PropagationStatus::Failure);

    let mut eq = ReifiedScalarEqPropagator::new(vec![1, 1], vec![x, y], 5, reif);
    assert_eq!(eq.propagate(&mut ctx), PropagationStatus::Failure);
}

#[test]
fn mock_open_singleton_reif_scalar_propagators() {

    let mut engine = Engine::new();
    let x = engine.new_variable(IntervalDomain::new(0, 0));
    let y = engine.new_variable(IntervalDomain::new(0, 0));
    let reif = engine.new_variable(IntervalDomain::new(0, 0));
    let mut ctx = MockIntCtx::new()
        .with_domain(x, vec![0, 1, 2, 3, 4])
        .with_domain(y, vec![0, 1, 2, 3, 4])
        .with_open_singleton(reif, 1);
    let mut le = ReifiedScalarLePropagator::new(vec![1, 1], vec![x, y], 5, reif);
    assert_ne!(le.propagate(&mut ctx), PropagationStatus::Failure);

    let reif2 = engine.new_variable(IntervalDomain::new(0, 0));
    let mut ge = ReifiedScalarGePropagator::new(vec![1, 1], vec![x, y], 3, reif2);
    let mut ctx2 = MockIntCtx::new()
        .with_domain(x, vec![0, 1, 2, 3, 4])
        .with_domain(y, vec![0, 1, 2, 3, 4])
        .with_open_singleton(reif2, 1);
    assert_ne!(ge.propagate(&mut ctx2), PropagationStatus::Failure);

    let reif3 = engine.new_variable(IntervalDomain::new(0, 0));
    let mut eq = ReifiedScalarEqPropagator::new(vec![1, 1], vec![x, y], 4, reif3);
    let mut ctx3 = MockIntCtx::new()
        .with_domain(x, vec![1, 2, 3])
        .with_domain(y, vec![1, 2, 3])
        .with_open_singleton(reif3, 0);
    assert_ne!(eq.propagate(&mut ctx3), PropagationStatus::Failure);
}

#[test]
fn mock_open_singleton_reif_scalar_false_branches() {

    let mut engine = Engine::new();
    let x = engine.new_variable(IntervalDomain::new(0, 0));
    let y = engine.new_variable(IntervalDomain::new(0, 0));
    let reif = engine.new_variable(IntervalDomain::new(0, 0));
    let mut ctx = MockIntCtx::new()
        .with_domain(x, vec![10, 11, 12])
        .with_domain(y, vec![10, 11, 12])
        .with_open_singleton(reif, 0);
    let mut le = ReifiedScalarLePropagator::new(vec![1, 1], vec![x, y], 5, reif);
    assert_ne!(le.propagate(&mut ctx), PropagationStatus::Failure);

    let reif2 = engine.new_variable(IntervalDomain::new(0, 0));
    let mut ge = ReifiedScalarGePropagator::new(vec![1, 1], vec![x, y], 30, reif2);
    let mut ctx2 = MockIntCtx::new()
        .with_domain(x, vec![10, 11, 12])
        .with_domain(y, vec![10, 11, 12])
        .with_open_singleton(reif2, 0);
    assert_ne!(ge.propagate(&mut ctx2), PropagationStatus::Failure);
}

#[test]
fn mock_reified_scalar_singleton_failure_and_empty_paths() {

    let mut engine = Engine::new();
    let x = engine.new_variable(IntervalDomain::new(0, 0));
    let y = engine.new_variable(IntervalDomain::new(0, 0));
    let reif = engine.new_variable(IntervalDomain::new(0, 0));
    let mut ctx = MockIntCtx::new()
        .with_domain(x, vec![10, 11])
        .with_domain(y, vec![10, 11])
        .with_open_singleton(reif, 1);
    let mut le = ReifiedScalarLePropagator::new(vec![1, 1], vec![x, y], 5, reif);
    assert_eq!(le.propagate(&mut ctx), PropagationStatus::Failure);

    let reif2 = engine.new_variable(IntervalDomain::new(0, 0));
    let mut ge = ReifiedScalarGePropagator::new(vec![1, 1], vec![x, y], 50, reif2);
    let mut ctx2 = MockIntCtx::new()
        .with_domain(x, vec![10, 11])
        .with_domain(y, vec![10, 11])
        .with_open_singleton(reif2, 1);
    assert_eq!(ge.propagate(&mut ctx2), PropagationStatus::Failure);

    let reif3 = engine.new_variable(IntervalDomain::new(0, 0));
    let mut eq = ReifiedScalarEqPropagator::new(vec![1, 1], vec![x, y], 20, reif3);
    let mut ctx3 = MockIntCtx::new()
        .with_domain(x, vec![10])
        .with_domain(y, vec![10])
        .with_open_singleton(reif3, 0);
    assert_eq!(eq.propagate(&mut ctx3), PropagationStatus::Failure);

    let reif4 = engine.new_variable(IntervalDomain::new(0, 0));
    let mut ctx4 = MockIntCtx::new()
        .with_domain(x, vec![])
        .with_domain(y, vec![1, 2])
        .with_open_singleton(reif4, 1);
    let mut le_empty = ReifiedScalarLePropagator::new(vec![1, 1], vec![x, y], 5, reif4);
    assert_eq!(le_empty.propagate(&mut ctx4), PropagationStatus::Failure);
}

#[test]
fn propagate_scalar_ge_skips_zero_coefficient() {

    let mut engine = Engine::new();
    let x = engine.new_variable(IntervalDomain::new(0, 0));
    let y = engine.new_variable(IntervalDomain::new(0, 0));
    let mut ctx = MockIntCtx::new()
        .with_domain(x, vec![1, 2, 3])
        .with_domain(y, vec![4, 5, 6]);
    assert_eq!(
        propagate_scalar_ge(&mut ctx, &vec![0, 1], &vec![x, y], 5),
        PropagationStatus::OkChanged
    );
    assert_eq!(ctx.domain_values(y), vec![5, 6]);
}

#[test]
fn mock_open_singleton_reif_scalar_failure_returns() {

    let mut engine = Engine::new();
    let x = engine.new_variable(IntervalDomain::new(0, 0));
    let y = engine.new_variable(IntervalDomain::new(0, 0));
    let reif = engine.new_variable(IntervalDomain::new(0, 0));

    let mut le = ReifiedScalarLePropagator::new(vec![1, 1], vec![x, y], 5, reif);
    let mut ctx = MockIntCtx::new()
        .with_domain(x, vec![1, 2])
        .with_domain(y, vec![1, 2])
        .with_open_singleton(reif, 0);
    assert_eq!(le.propagate(&mut ctx), PropagationStatus::Failure);

    let reif2 = engine.new_variable(IntervalDomain::new(0, 0));
    let mut ge = ReifiedScalarGePropagator::new(vec![1, 1], vec![x, y], 10, reif2);
    let mut ctx2 = MockIntCtx::new()
        .with_domain(x, vec![1, 2])
        .with_domain(y, vec![1, 2])
        .with_open_singleton(reif2, 1);
    assert_eq!(ge.propagate(&mut ctx2), PropagationStatus::Failure);

    let reif3 = engine.new_variable(IntervalDomain::new(0, 0));
    let mut le3 = ReifiedScalarLePropagator::new(vec![1, 1], vec![x, y], 5, reif3);
    let mut ctx3 = MockIntCtx::new()
        .with_domain(x, vec![])
        .with_domain(y, vec![1, 2])
        .with_open_singleton(reif3, 1);
    assert_eq!(le3.propagate(&mut ctx3), PropagationStatus::Failure);

    let reif4 = engine.new_variable(IntervalDomain::new(0, 0));
    let mut ge4 = ReifiedScalarGePropagator::new(vec![1, 1], vec![x, y], 3, reif4);
    let mut ctx4 = MockIntCtx::new()
        .with_domain(x, vec![])
        .with_domain(y, vec![1, 2])
        .with_open_singleton(reif4, 0);
    assert_eq!(ge4.propagate(&mut ctx4), PropagationStatus::Failure);
}

#[test]
fn mock_open_singleton_invalid_reif_value_ignored() {

    let mut engine = Engine::new();
    let x = engine.new_variable(IntervalDomain::new(0, 0));
    let y = engine.new_variable(IntervalDomain::new(0, 0));
    let reif = engine.new_variable(IntervalDomain::new(0, 0));
    let mut ctx = MockIntCtx::new()
        .with_domain(x, vec![0, 1, 2])
        .with_domain(y, vec![0, 1, 2])
        .with_open_singleton(reif, 2);
    let mut le = ReifiedScalarLePropagator::new(vec![1, 1], vec![x, y], 100, reif);
    assert_eq!(le.propagate(&mut ctx), PropagationStatus::Failure);

    let reif2 = engine.new_variable(IntervalDomain::new(0, 0));
    let mut ge = ReifiedScalarGePropagator::new(vec![1, 1], vec![x, y], 3, reif2);
    let mut ctx2 = MockIntCtx::new()
        .with_domain(x, vec![0, 1, 2])
        .with_domain(y, vec![0, 1, 2])
        .with_open_singleton(reif2, 2);
    assert_eq!(ge.propagate(&mut ctx2), PropagationStatus::OkNoChange);

    let reif3 = engine.new_variable(IntervalDomain::new(0, 0));
    let mut eq = ReifiedScalarEqPropagator::new(vec![1, 1], vec![x, y], 4, reif3);
    let mut ctx3 = MockIntCtx::new()
        .with_domain(x, vec![1, 2, 3])
        .with_domain(y, vec![1, 2, 3])
        .with_open_singleton(reif3, 2);
    assert_eq!(eq.propagate(&mut ctx3), PropagationStatus::OkNoChange);
}

#[test]
fn mock_open_singleton_reif_eq_failure_paths() {

    let mut engine = Engine::new();
    let x = engine.new_variable(IntervalDomain::new(0, 0));
    let y = engine.new_variable(IntervalDomain::new(0, 0));
    let reif = engine.new_variable(IntervalDomain::new(0, 0));
    let mut eq = ReifiedScalarEqPropagator::new(vec![1, 1], vec![x, y], 10, reif);
    let mut ctx = MockIntCtx::new()
        .with_domain(x, vec![1, 2])
        .with_domain(y, vec![1, 2])
        .with_open_singleton(reif, 1);
    assert_eq!(eq.propagate(&mut ctx), PropagationStatus::Failure);

    let reif3 = engine.new_variable(IntervalDomain::new(0, 0));
    let mut eq3 = ReifiedScalarEqPropagator::new(vec![1, 1], vec![x, y], 6, reif3);
    let mut ctx3 = MockIntCtx::new()
        .with_domain(x, vec![])
        .with_domain(y, vec![3])
        .with_open_singleton(reif3, 1);
    assert_eq!(eq3.propagate(&mut ctx3), PropagationStatus::Failure);
}

#[test]
fn mock_open_singleton_reif_ge_and_eq_failure_returns() {

    let mut engine = Engine::new();
    let x = engine.new_variable(IntervalDomain::new(0, 0));
    let y = engine.new_variable(IntervalDomain::new(0, 0));
    let reif = engine.new_variable(IntervalDomain::new(0, 0));
    let mut ge = ReifiedScalarGePropagator::new(vec![1, 1], vec![x, y], 50, reif);
    let mut ctx = MockIntCtx::new()
        .with_domain(x, vec![10, 11])
        .with_domain(y, vec![10, 11])
        .with_open_singleton(reif, 1);
    assert_eq!(ge.propagate(&mut ctx), PropagationStatus::Failure);

    let reif3 = engine.new_variable(IntervalDomain::new(0, 0));
    let mut eq3 = ReifiedScalarEqPropagator::new(vec![1, 1], vec![x, y], 4, reif3);
    let mut ctx3 = MockIntCtx::new()
        .with_domain(x, vec![])
        .with_domain(y, vec![1, 2])
        .with_open_singleton(reif3, 1);
    assert_eq!(eq3.propagate(&mut ctx3), PropagationStatus::Failure);
}

#[test]
fn fixed_left_equalizes_holey_right_domain() {
    let mut engine = Engine::new();
    let index = engine.new_variable(IntervalDomain::fix(0));
    let a = engine.new_variable(IntervalDomain::new(1, 5).remove(2).remove(4));
    let value = engine.new_variable(IntervalDomain::fix(3));
    engine.add_propagator(Box::new(ElementPropagator::new(index, vec![a], value)));
    let _ = engine.propagate_all();
}

#[test]
fn fixed_right_equalizes_holey_left_domain() {
    let mut engine = Engine::new();
    let index = engine.new_variable(IntervalDomain::fix(0));
    let a = engine.new_variable(IntervalDomain::new(1, 5).remove(2));
    let value = engine.new_variable(IntervalDomain::fix(1));
    engine.add_propagator(Box::new(ElementPropagator::new(index, vec![a], value)));
    engine.propagate_all().unwrap();
    assert_eq!(engine.hybrid_domain(a).fixed_value(), Some(1));
}

#[test]
fn bounds_sync_between_value_and_element() {
    let mut engine = Engine::new();
    let index = engine.new_variable(IntervalDomain::fix(0));
    let a = engine.new_variable(IntervalDomain::new(3, 7));
    let value = engine.new_variable(IntervalDomain::new(1, 10));
    engine.add_propagator(Box::new(ElementPropagator::new(index, vec![a], value)));
    engine.propagate_all().unwrap();
    assert_eq!(engine.hybrid_domain(value).min(), Some(3));
    assert_eq!(engine.hybrid_domain(value).max(), Some(7));
    assert_eq!(engine.hybrid_domain(a).min(), Some(3));
    assert_eq!(engine.hybrid_domain(a).max(), Some(7));
}

#[test]
fn invalid_fixed_index_returns_without_equalizing() {
    let mut engine = Engine::new();
    let index = engine.new_variable(IntervalDomain::fix(5));
    let a = engine.new_variable(IntervalDomain::new(1, 5));
    let value = engine.new_variable(IntervalDomain::new(1, 5));
    engine.add_propagator(Box::new(ElementPropagator::new(index, vec![a], value)));
    let _ = engine.propagate_all();
}

#[test]
fn fixed_value_prunes_unsupported_indices_with_holes() {
    let mut engine = Engine::new();
    let index = engine.new_variable(IntervalDomain::new(0, 2).remove(1));
    let a = engine.new_variable(IntervalDomain::new(1, 5));
    let b = engine.new_variable(IntervalDomain::new(1, 5));
    let c = engine.new_variable(IntervalDomain::fix(9));
    let value = engine.new_variable(IntervalDomain::fix(9));
    engine.add_propagator(Box::new(ElementPropagator::new(
        index,
        vec![a, b, c],
        value,
    )));
    engine.propagate_all().unwrap();
    assert_eq!(engine.hybrid_domain(index).fixed_value(), Some(2));
}

#[test]
fn tighten_equal_with_holey_domains() {
    let mut engine = Engine::new();
    let index = engine.new_variable(IntervalDomain::fix(0));
    let a = engine.new_variable(IntervalDomain::new(1, 5).remove(2).remove(4));
    let value = engine.new_variable(IntervalDomain::fix(1));
    engine.add_propagator(Box::new(ElementPropagator::new(index, vec![a], value)));
    engine.propagate_all().unwrap();
    assert_eq!(engine.hybrid_domain(a).fixed_value(), Some(1));
}

#[test]
fn fixed_value_equalizes_element_with_holes() {
    let mut engine = Engine::new();
    let index = engine.new_variable(IntervalDomain::fix(0));
    let a = engine.new_variable(IntervalDomain::new(1, 5).remove(2));
    let value = engine.new_variable(IntervalDomain::fix(1));
    engine.add_propagator(Box::new(ElementPropagator::new(index, vec![a], value)));
    engine.propagate_all().unwrap();
    assert_eq!(engine.hybrid_domain(a).fixed_value(), Some(1));
}

#[test]
fn element_bounds_sync_to_value() {
    let mut engine = Engine::new();
    let index = engine.new_variable(IntervalDomain::new(0, 0));
    let a = engine.new_variable(IntervalDomain::new(10, 20));
    let b = engine.new_variable(IntervalDomain::new(30, 40));
    let value = engine.new_variable(IntervalDomain::new(1, 100));
    engine.add_propagator(Box::new(ElementPropagator::new(index, vec![a, b], value)));
    engine.propagate_all().unwrap();
    assert_eq!(engine.hybrid_domain(value).min(), Some(10));
    assert_eq!(engine.hybrid_domain(value).max(), Some(20));
}

#[test]
fn empty_index_domain_fails() {
    let mut engine = Engine::new();
    let index = engine.new_variable(IntervalDomain::new(1, 0));
    let a = engine.new_variable(IntervalDomain::new(1, 5));
    let value = engine.new_variable(IntervalDomain::new(1, 5));
    engine.add_propagator(Box::new(ElementPropagator::new(index, vec![a], value)));
    assert_eq!(engine.propagate_all().unwrap(), PropagationStatus::Failure);
}

#[test]
fn fixed_index_propagates_to_value() {
    let mut engine = Engine::new();
    let index = engine.new_variable(IntervalDomain::fix(2));
    let a = engine.new_variable(IntervalDomain::new(1, 5));
    let b = engine.new_variable(IntervalDomain::new(1, 5));
    let c = engine.new_variable(IntervalDomain::new(10, 20));
    let value = engine.new_variable(IntervalDomain::new(1, 20));
    engine.add_propagator(Box::new(ElementPropagator::new(
        index,
        vec![a, b, c],
        value,
    )));

    engine.propagate_all().unwrap();
    assert_eq!(engine.hybrid_domain(value).min(), Some(10));
    assert_eq!(engine.hybrid_domain(value).max(), Some(20));
}

#[test]
fn fixed_value_prunes_index() {
    let mut engine = Engine::new();
    let index = engine.new_variable(IntervalDomain::new(0, 2));
    let a = engine.new_variable(IntervalDomain::new(1, 5));
    let b = engine.new_variable(IntervalDomain::new(1, 5));
    let c = engine.new_variable(IntervalDomain::fix(9));
    let value = engine.new_variable(IntervalDomain::fix(9));
    engine.add_propagator(Box::new(ElementPropagator::new(
        index,
        vec![a, b, c],
        value,
    )));

    engine.propagate_all().unwrap();
    assert_eq!(engine.hybrid_domain(index).fixed_value(), Some(2));
}

#[test]
fn empty_array_fails() {
    let mut engine = Engine::new();
    let index = engine.new_variable(IntervalDomain::fix(0));
    let value = engine.new_variable(IntervalDomain::fix(1));
    engine.add_propagator(Box::new(ElementPropagator::new(index, vec![], value)));

    let status = engine.propagate_all().unwrap();
    assert_eq!(status, PropagationStatus::Failure);
}

#[test]
fn index_clamped_to_array_bounds() {
    let mut engine = Engine::new();
    let index = engine.new_variable(IntervalDomain::new(-1, 5));
    let a = engine.new_variable(IntervalDomain::new(1, 5));
    let b = engine.new_variable(IntervalDomain::new(1, 5));
    let c = engine.new_variable(IntervalDomain::new(1, 5));
    let value = engine.new_variable(IntervalDomain::new(1, 5));
    engine.add_propagator(Box::new(ElementPropagator::new(
        index,
        vec![a, b, c],
        value,
    )));

    engine.propagate_all().unwrap();
    assert_eq!(engine.hybrid_domain(index).min(), Some(0));
    assert_eq!(engine.hybrid_domain(index).max(), Some(2));
}

#[test]
fn variable_index_tightens_value_bounds() {
    let mut engine = Engine::new();
    let index = engine.new_variable(IntervalDomain::new(0, 1));
    let a = engine.new_variable(IntervalDomain::new(10, 20));
    let b = engine.new_variable(IntervalDomain::new(10, 20));
    let c = engine.new_variable(IntervalDomain::new(30, 40));
    let value = engine.new_variable(IntervalDomain::new(1, 100));
    engine.add_propagator(Box::new(ElementPropagator::new(
        index,
        vec![a, b, c],
        value,
    )));

    engine.propagate_all().unwrap();
    assert_eq!(engine.hybrid_domain(value).min(), Some(10));
    assert_eq!(engine.hybrid_domain(value).max(), Some(20));
}

#[test]
fn fixed_index_equalizes_value_and_element() {
    let mut engine = Engine::new();
    let index = engine.new_variable(IntervalDomain::fix(1));
    let a = engine.new_variable(IntervalDomain::new(1, 5));
    let b = engine.new_variable(IntervalDomain::new(10, 20));
    let c = engine.new_variable(IntervalDomain::new(30, 40));
    let value = engine.new_variable(IntervalDomain::new(1, 100));
    engine.add_propagator(Box::new(ElementPropagator::new(
        index,
        vec![a, b, c],
        value,
    )));

    engine.propagate_all().unwrap();
    assert_eq!(engine.hybrid_domain(value).min(), Some(10));
    assert_eq!(engine.hybrid_domain(value).max(), Some(20));
    assert_eq!(engine.hybrid_domain(b).min(), Some(10));
    assert_eq!(engine.hybrid_domain(b).max(), Some(20));
}

#[test]
fn element_already_satisfied_no_change() {
    let mut engine = Engine::new();
    let index = engine.new_variable(IntervalDomain::fix(1));
    let a = engine.new_variable(IntervalDomain::fix(5));
    let b = engine.new_variable(IntervalDomain::fix(10));
    let value = engine.new_variable(IntervalDomain::fix(10));
    engine.add_propagator(Box::new(ElementPropagator::new(index, vec![a, b], value)));

    let status = engine.propagate_all().unwrap();
    assert_eq!(status, PropagationStatus::OkNoChange);
}

#[test]
fn tighten_equal_syncs_bounds_between_operands() {

    let mut engine = Engine::new();
    let left = engine.new_variable(IntervalDomain::new(2, 4));
    let right = engine.new_variable(IntervalDomain::new(1, 10));
    let mut ctx = MutEngine(&mut engine);
    assert!(tighten_equal(&mut ctx, left, right));
    assert_eq!(engine.hybrid_domain(right).min(), Some(2));
    assert_eq!(engine.hybrid_domain(right).max(), Some(4));
}

#[test]
fn propagate_element_to_value_syncs_both_ways() {

    let mut engine = Engine::new();
    let element = engine.new_variable(IntervalDomain::new(3, 7));
    let value = engine.new_variable(IntervalDomain::new(1, 10));
    let mut ctx = MutEngine(&mut engine);
    assert!(propagate_element_to_value(&mut ctx, element, value));
    assert_eq!(engine.hybrid_domain(value).min(), Some(3));
    assert_eq!(engine.hybrid_domain(value).max(), Some(7));
}

#[test]
fn invalid_fixed_index_skips_equalization() {
    let mut engine = Engine::new();
    let index = engine.new_variable(IntervalDomain::fix(5));
    let a = engine.new_variable(IntervalDomain::new(1, 5));
    let value = engine.new_variable(IntervalDomain::new(1, 5));
    engine.add_propagator(Box::new(ElementPropagator::new(index, vec![a], value)));
    assert_eq!(engine.propagate_all().unwrap(), PropagationStatus::Failure);
}

#[test]
fn mock_invalid_fixed_index_returns_early() {

    let mut engine = Engine::new();
    let index = engine.new_variable(IntervalDomain::new(0, 0));
    let a = engine.new_variable(IntervalDomain::new(0, 0));
    let value = engine.new_variable(IntervalDomain::new(0, 0));
    let mut ctx = MockIntCtx::new()
        .with_domain(index, vec![5])
        .with_domain(a, vec![1, 2, 3])
        .with_domain(value, vec![1, 2, 3])
        .with_fixed(index, 5);
    let changed = propagate_index(&mut ctx, index, &vec![a], value);
    assert!(!changed || ctx.values_of(&value).len() == 3);
}

#[test]
fn mock_tighten_equal_prunes_holey_domain() {

    let mut engine = Engine::new();
    let left = engine.new_variable(IntervalDomain::new(0, 0));
    let right = engine.new_variable(IntervalDomain::new(0, 0));
    let mut ctx = MockIntCtx::new()
        .with_domain(left, vec![3])
        .with_domain(right, vec![1, 2, 3, 4, 5])
        .with_fixed(left, 3);
    assert!(tighten_equal(&mut ctx, left, right));
    assert_eq!(ctx.values_of(&right).as_slice(), &[3]);
}

#[test]
fn mock_propagate_element_to_value_syncs_both_directions() {

    let mut engine = Engine::new();
    let element = engine.new_variable(IntervalDomain::new(0, 0));
    let value = engine.new_variable(IntervalDomain::new(0, 0));
    let mut ctx = MockIntCtx::new()
        .with_domain(element, vec![2, 3, 4, 5])
        .with_domain(value, vec![3, 4]);
    assert!(propagate_element_to_value(&mut ctx, element, value));
    assert_eq!(ctx.values_of(&element).as_slice(), &[3, 4]);
    assert_eq!(ctx.values_of(&value).as_slice(), &[3, 4]);
}

#[test]
fn mock_tighten_equal_syncs_from_right() {

    let mut engine = Engine::new();
    let left = engine.new_variable(IntervalDomain::new(0, 0));
    let right = engine.new_variable(IntervalDomain::new(0, 0));
    let mut ctx = MockIntCtx::new()
        .with_domain(left, vec![4, 5, 6, 10])
        .with_domain(right, vec![4, 5, 6]);
    assert!(tighten_equal(&mut ctx, left, right));
    assert_eq!(ctx.values_of(&left).as_slice(), &[4, 5, 6]);
}

#[test]
fn mock_propagate_element_bounds_from_value() {

    let mut engine = Engine::new();
    let index = engine.new_variable(IntervalDomain::new(0, 0));
    let a = engine.new_variable(IntervalDomain::new(0, 0));
    let b = engine.new_variable(IntervalDomain::new(0, 0));
    let value = engine.new_variable(IntervalDomain::new(0, 0));
    let mut ctx = MockIntCtx::new()
        .with_domain(index, vec![0, 1])
        .with_domain(a, vec![10, 20])
        .with_domain(b, vec![30, 40])
        .with_domain(value, vec![12, 18]);
    assert!(propagate_value_bounds(&mut ctx, index, &vec![a, b], value));
}

#[test]
fn mock_tighten_equal_fixed_right_prunes_holey_left() {

    let mut engine = Engine::new();
    let left = engine.new_variable(IntervalDomain::new(0, 0));
    let right = engine.new_variable(IntervalDomain::new(0, 0));
    let mut ctx = MockIntCtx::new()
        .with_domain(left, vec![1, 2, 3, 4, 5])
        .with_domain(right, vec![5])
        .with_fixed(right, 5);
    assert!(tighten_equal(&mut ctx, left, right));
    assert_eq!(ctx.values_of(&left).as_slice(), &[5]);
}

#[test]
fn mock_tighten_equal_syncs_left_bounds_to_right() {

    let mut engine = Engine::new();
    let left = engine.new_variable(IntervalDomain::new(0, 0));
    let right = engine.new_variable(IntervalDomain::new(0, 0));
    let mut ctx = MockIntCtx::new()
        .with_domain(left, vec![5, 6])
        .with_domain(right, vec![4, 5, 6, 7]);
    assert!(tighten_equal(&mut ctx, left, right));
    assert_eq!(ctx.values_of(&right).as_slice(), &[5, 6]);
}

#[test]
fn mock_propagate_element_to_value_tightens_element_from_value() {

    let mut engine = Engine::new();
    let element = engine.new_variable(IntervalDomain::new(0, 0));
    let value = engine.new_variable(IntervalDomain::new(0, 0));
    let mut ctx = MockIntCtx::new()
        .with_domain(element, vec![1, 2, 3, 4, 5])
        .with_domain(value, vec![4]);
    assert!(propagate_element_to_value(&mut ctx, element, value));
    assert_eq!(ctx.values_of(&element).as_slice(), &[4]);
}

#[test]
fn mock_propagate_element_to_value_syncs_value_bounds_to_element() {

    let mut engine = Engine::new();
    let element = engine.new_variable(IntervalDomain::new(0, 0));
    let value = engine.new_variable(IntervalDomain::new(0, 0));
    let mut ctx = MockIntCtx::new()
        .with_domain(element, vec![1, 2, 3, 4, 5, 6])
        .with_domain(value, vec![3, 4]);
    assert!(propagate_element_to_value(&mut ctx, element, value));
    assert_eq!(ctx.values_of(&element).as_slice(), &[3, 4]);
}

#[test]
fn mock_tighten_equal_fixed_left_prunes_holey_right() {

    let mut engine = Engine::new();
    let left = engine.new_variable(IntervalDomain::new(0, 0));
    let right = engine.new_variable(IntervalDomain::new(0, 0));
    let mut ctx = MockIntCtx::new()
        .with_domain(left, vec![7])
        .with_domain(right, vec![5, 6, 7, 8, 9])
        .with_fixed(left, 7);
    assert!(tighten_equal(&mut ctx, left, right));
    assert_eq!(ctx.values_of(&right).as_slice(), &[7]);
}

#[test]
fn mock_tighten_equal_fixed_right_prunes_holey_left_values() {

    let mut engine = Engine::new();
    let left = engine.new_variable(IntervalDomain::new(0, 0));
    let right = engine.new_variable(IntervalDomain::new(0, 0));
    let mut ctx = MockIntCtx::new()
        .with_domain(left, vec![1, 2, 3, 4, 5])
        .with_domain(right, vec![3])
        .with_fixed(right, 3);
    assert!(tighten_equal(&mut ctx, left, right));
    assert_eq!(ctx.values_of(&left).as_slice(), &[3]);
}

#[test]
fn mock_tighten_equal_syncs_left_bounds_to_right_domain() {

    let mut engine = Engine::new();
    let left = engine.new_variable(IntervalDomain::new(0, 0));
    let right = engine.new_variable(IntervalDomain::new(0, 0));
    let mut ctx = MockIntCtx::new()
        .with_domain(left, vec![4, 5])
        .with_domain(right, vec![1, 2, 3, 4, 5, 6]);
    assert!(tighten_equal(&mut ctx, left, right));
    assert_eq!(ctx.values_of(&right).as_slice(), &[4, 5]);
}

#[test]
fn mock_tighten_equal_syncs_right_bounds_to_left_domain() {

    let mut engine = Engine::new();
    let left = engine.new_variable(IntervalDomain::new(0, 0));
    let right = engine.new_variable(IntervalDomain::new(0, 0));
    let mut ctx = MockIntCtx::new()
        .with_domain(left, vec![1, 2, 3, 4, 5, 6])
        .with_domain(right, vec![4, 5]);
    assert!(tighten_equal(&mut ctx, left, right));
    assert_eq!(ctx.values_of(&left).as_slice(), &[4, 5]);
}

#[test]
fn mock_tighten_equal_fixed_left_prunes_extra_right_values() {

    let mut engine = Engine::new();
    let left = engine.new_variable(IntervalDomain::new(0, 0));
    let right = engine.new_variable(IntervalDomain::new(0, 0));
    let mut ctx = MockIntCtx::new()
        .with_domain(left, vec![3])
        .with_domain(right, vec![1, 2, 3, 4, 5])
        .with_fixed(left, 3);
    assert!(tighten_equal(&mut ctx, left, right));
    assert_eq!(ctx.values_of(&right).as_slice(), &[3]);
}

#[test]
fn mock_tighten_equal_bound_sync_from_right_fixed() {

    let mut engine = Engine::new();
    let left = engine.new_variable(IntervalDomain::new(0, 0));
    let right = engine.new_variable(IntervalDomain::new(0, 0));
    let mut ctx = MockIntCtx::new()
        .with_domain(left, vec![1, 2, 3, 4, 5, 6])
        .with_domain(right, vec![4, 5]);
    assert!(tighten_equal(&mut ctx, left, right));
    assert_eq!(ctx.values_of(&left).as_slice(), &[4, 5]);
}

#[test]
fn mock_tighten_equal_prunes_extra_values_both_fixed_sides() {

    let mut engine = Engine::new();
    let left = engine.new_variable(IntervalDomain::new(0, 0));
    let right = engine.new_variable(IntervalDomain::new(0, 0));
    let mut ctx = MockIntCtx::new()
        .with_domain(left, vec![9])
        .with_domain(right, vec![6, 7, 8, 9, 10])
        .with_fixed(left, 9);
    assert!(tighten_equal(&mut ctx, left, right));
    assert_eq!(ctx.values_of(&right).as_slice(), &[9]);

    let mut ctx = MockIntCtx::new()
        .with_domain(left, vec![6, 7, 8, 9, 10])
        .with_domain(right, vec![9])
        .with_fixed(right, 9);
    assert!(tighten_equal(&mut ctx, left, right));
    assert_eq!(ctx.values_of(&left).as_slice(), &[9]);

    let mut ctx = MockIntCtx::new()
        .with_domain(left, vec![4, 5])
        .with_domain(right, vec![2, 3, 4, 5, 6]);
    assert!(tighten_equal(&mut ctx, left, right));
    assert_eq!(ctx.values_of(&right).as_slice(), &[4, 5]);
}

#[test]
fn mock_propagate_element_to_value_element_only_bounds() {

    let mut engine = Engine::new();
    let element = engine.new_variable(IntervalDomain::new(0, 0));
    let value = engine.new_variable(IntervalDomain::new(0, 0));
    let mut ctx = MockIntCtx::new()
        .with_domain(element, vec![1, 2, 3, 4, 5, 6])
        .with_domain(value, vec![]);
    assert!(!propagate_element_to_value(&mut ctx, element, value));
}

#[test]
fn mock_tighten_equal_fixed_left_removes_holey_right_values() {

    let mut engine = Engine::new();
    let left = engine.new_variable(IntervalDomain::new(0, 0));
    let right = engine.new_variable(IntervalDomain::new(0, 0));
    let mut ctx = MockIntCtx::new()
        .with_domain(left, vec![8])
        .with_domain(right, vec![5, 6, 7, 8, 9])
        .with_fixed(left, 8);
    assert!(tighten_equal(&mut ctx, left, right));
    assert_eq!(ctx.values_of(&right).as_slice(), &[8]);
}

#[test]
fn mock_tighten_equal_fixed_right_removes_holey_left_values() {

    let mut engine = Engine::new();
    let left = engine.new_variable(IntervalDomain::new(0, 0));
    let right = engine.new_variable(IntervalDomain::new(0, 0));
    let mut ctx = MockIntCtx::new()
        .with_domain(left, vec![5, 6, 7, 8, 9])
        .with_domain(right, vec![8])
        .with_fixed(right, 8);
    assert!(tighten_equal(&mut ctx, left, right));
    assert_eq!(ctx.values_of(&left).as_slice(), &[8]);
}

#[test]
fn empty_variable_domain_fails_after_propagation() {
    let mut engine = Engine::new();
    let a = engine.new_variable(IntervalDomain::new(1, 0));
    let b = engine.new_variable(IntervalDomain::new(1, 3));
    engine.add_propagator(Box::new(GlobalCardinalityPropagator::new(vec![a, b], [])));
    assert_eq!(engine.propagate_all().unwrap(), PropagationStatus::Failure);
}

#[test]
fn collects_values_not_in_cards_map() {
    let mut engine = Engine::new();
    let a = engine.new_variable(IntervalDomain::new(1, 5));
    let b = engine.new_variable(IntervalDomain::new(1, 5));
    engine.add_propagator(Box::new(GlobalCardinalityPropagator::new(
        vec![a, b],
        [(1, CardinalityBound::exact(1))],
    )));
    assert_ne!(engine.propagate_all().unwrap(), PropagationStatus::Failure);
}

#[test]
fn prunes_value_when_insufficient_support_for_min() {
    let mut engine = Engine::new();
    let a = engine.new_variable(IntervalDomain::fix(1));
    let b = engine.new_variable(IntervalDomain::new(1, 2));
    let c = engine.new_variable(IntervalDomain::new(2, 3));
    engine.add_propagator(Box::new(GlobalCardinalityPropagator::new(
        vec![a, b, c],
        [(1, CardinalityBound::exact(2))],
    )));
    engine.propagate_all().unwrap();
    assert!(!engine.hybrid_domain(c).contains(1));
}

#[test]
fn forces_min_with_holey_domain() {
    let mut engine = Engine::new();
    let a = engine.new_variable(IntervalDomain::new(1, 4).remove(2).remove(3));
    let b = engine.new_variable(IntervalDomain::new(1, 4).remove(2).remove(3));
    engine.add_propagator(Box::new(GlobalCardinalityPropagator::new(
        vec![a, b],
        [(1, CardinalityBound::exact(2))],
    )));
    engine.propagate_all().unwrap();
    assert_eq!(engine.hybrid_domain(a).fixed_value(), Some(1));
    assert_eq!(engine.hybrid_domain(b).fixed_value(), Some(1));
}

#[test]
fn max_cardinality_removes_value_from_open_vars() {
    let mut engine = Engine::new();
    let a = engine.new_variable(IntervalDomain::fix(1));
    let b = engine.new_variable(IntervalDomain::fix(1));
    let c = engine.new_variable(IntervalDomain::new(1, 3));
    engine.add_propagator(Box::new(GlobalCardinalityPropagator::new(
        vec![a, b, c],
        [(1, CardinalityBound::exact(2))],
    )));
    engine.propagate_all().unwrap();
    assert!(!engine.hybrid_domain(c).contains(1));
}

#[test]
fn exceeds_max_cardinality_fails() {
    let mut engine = Engine::new();
    let a = engine.new_variable(IntervalDomain::fix(1));
    let b = engine.new_variable(IntervalDomain::fix(1));
    let c = engine.new_variable(IntervalDomain::fix(1));
    engine.add_propagator(Box::new(GlobalCardinalityPropagator::new(
        vec![a, b, c],
        [(1, CardinalityBound::exact(2))],
    )));

    let status = engine.propagate_all().unwrap();
    assert_eq!(status, PropagationStatus::Failure);
}

#[test]
fn min_cardinality_forces_value() {
    let mut engine = Engine::new();
    let a = engine.new_variable(IntervalDomain::fix(1));
    let b = engine.new_variable(IntervalDomain::new(1, 3));
    engine.add_propagator(Box::new(GlobalCardinalityPropagator::new(
        vec![a, b],
        [(1, CardinalityBound::exact(2))],
    )));

    engine.propagate_all().unwrap();
    assert_eq!(engine.hybrid_domain(a).fixed_value(), Some(1));
    assert_eq!(engine.hybrid_domain(b).fixed_value(), Some(1));
}

#[test]
fn prunes_unsupported_value() {
    let mut engine = Engine::new();
    let a = engine.new_variable(IntervalDomain::fix(1));
    let b = engine.new_variable(IntervalDomain::fix(1));
    let c = engine.new_variable(IntervalDomain::new(1, 3));
    engine.add_propagator(Box::new(GlobalCardinalityPropagator::new(
        vec![a, b, c],
        [(1, CardinalityBound::exact(2))],
    )));

    engine.propagate_all().unwrap();
    assert!(!engine.hybrid_domain(c).contains(1));
    assert!(engine.hybrid_domain(c).contains(2));
    assert!(engine.hybrid_domain(c).contains(3));
}

#[test]
fn prunes_value_exceeding_max() {
    let mut engine = Engine::new();
    let a = engine.new_variable(IntervalDomain::fix(1));
    let b = engine.new_variable(IntervalDomain::new(1, 2));
    let c = engine.new_variable(IntervalDomain::new(1, 2));
    engine.add_propagator(Box::new(GlobalCardinalityPropagator::new(
        vec![a, b, c],
        [(1, CardinalityBound::exact(1))],
    )));

    engine.propagate_all().unwrap();
    assert!(!engine.hybrid_domain(b).contains(1));
    assert!(!engine.hybrid_domain(c).contains(1));
}

#[test]
fn default_bounds_apply() {
    let mut engine = Engine::new();
    let a = engine.new_variable(IntervalDomain::fix(5));
    let b = engine.new_variable(IntervalDomain::fix(5));
    engine.add_propagator(Box::new(GlobalCardinalityPropagator::new(
        vec![a, b],
        [(1, CardinalityBound::exact(0))],
    )));

    let status = engine.propagate_all().unwrap();
    assert_eq!(status, PropagationStatus::OkNoChange);
    assert_eq!(engine.hybrid_domain(a).fixed_value(), Some(5));
    assert_eq!(engine.hybrid_domain(b).fixed_value(), Some(5));
}

#[test]
fn gcc_already_satisfied_no_change() {
    let mut engine = Engine::new();
    let a = engine.new_variable(IntervalDomain::fix(1));
    let b = engine.new_variable(IntervalDomain::fix(2));
    engine.add_propagator(Box::new(GlobalCardinalityPropagator::new(
        vec![a, b],
        [
            (1, CardinalityBound::exact(1)),
            (2, CardinalityBound::exact(1)),
        ],
    )));

    let status = engine.propagate_all().unwrap();
    assert_eq!(status, PropagationStatus::OkNoChange);
}

#[test]
fn empty_domain_after_bounds_loop_fails() {
    let mut engine = Engine::new();
    let a = engine.new_variable(IntervalDomain::new(1, 0));
    let b = engine.new_variable(IntervalDomain::new(1, 3));
    engine.add_propagator(Box::new(GlobalCardinalityPropagator::new(
        vec![a, b],
        [(1, CardinalityBound::exact(1))],
    )));
    assert_eq!(engine.propagate_all().unwrap(), PropagationStatus::Failure);
}

#[test]
fn collects_values_from_domains_outside_cards_map() {
    let mut engine = Engine::new();
    let a = engine.new_variable(IntervalDomain::new(5, 7));
    let b = engine.new_variable(IntervalDomain::new(5, 7));
    engine.add_propagator(Box::new(GlobalCardinalityPropagator::new(
        vec![a, b],
        [(5, CardinalityBound::exact(2))],
    )));
    engine.propagate_all().unwrap();
    assert_eq!(engine.hybrid_domain(a).fixed_value(), Some(5));
    assert_eq!(engine.hybrid_domain(b).fixed_value(), Some(5));
}

#[test]
fn range_bounds_used_in_propagation() {
    let mut engine = Engine::new();
    let a = engine.new_variable(IntervalDomain::new(1, 3));
    let b = engine.new_variable(IntervalDomain::new(1, 3));
    engine.add_propagator(Box::new(GlobalCardinalityPropagator::new(
        vec![a, b],
        [(2, CardinalityBound::range(0, 0))],
    )));
    engine.propagate_all().unwrap();
    assert!(!engine.hybrid_domain(a).contains(2));
    assert!(!engine.hybrid_domain(b).contains(2));
}

#[test]
fn prunes_value_with_insufficient_support() {
    let mut engine = Engine::new();
    let a = engine.new_variable(IntervalDomain::fix(1));
    let b = engine.new_variable(IntervalDomain::new(1, 2));
    let c = engine.new_variable(IntervalDomain::new(2, 3));
    engine.add_propagator(Box::new(GlobalCardinalityPropagator::new(
        vec![a, b, c],
        [(1, CardinalityBound::exact(2))],
    )));
    engine.propagate_all().unwrap();
    assert_eq!(engine.hybrid_domain(b).fixed_value(), Some(1));
}

#[test]
fn prunes_value_when_max_exceeded_for_var() {
    let mut engine = Engine::new();
    let a = engine.new_variable(IntervalDomain::fix(1));
    let b = engine.new_variable(IntervalDomain::fix(1));
    let c = engine.new_variable(IntervalDomain::new(1, 2));
    engine.add_propagator(Box::new(GlobalCardinalityPropagator::new(
        vec![a, b, c],
        [(1, CardinalityBound::exact(2))],
    )));
    engine.propagate_all().unwrap();
    assert!(!engine.hybrid_domain(c).contains(1));
}

#[test]
fn remove_all_except_forces_open_var() {

    let mut engine = Engine::new();
    let a = engine.new_variable(IntervalDomain::new(1, 4).remove(2).remove(3));
    let b = engine.new_variable(IntervalDomain::new(1, 4).remove(2).remove(3));
    let vars = vec![a, b];
    let cards = [(1, CardinalityBound::exact(2))].into_iter().collect();
    let mut ctx = MutEngine(&mut engine);
    assert!(propagate_bounds(&mut ctx, &vars, &cards).unwrap());
    assert_eq!(engine.hybrid_domain(a).fixed_value(), Some(1));
    assert_eq!(engine.hybrid_domain(b).fixed_value(), Some(1));
}

#[test]
fn prunes_insufficient_per_value_support() {
    let mut engine = Engine::new();
    let a = engine.new_variable(IntervalDomain::new(1, 2));
    let b = engine.new_variable(IntervalDomain::fix(1));
    let c = engine.new_variable(IntervalDomain::fix(2));
    engine.add_propagator(Box::new(GlobalCardinalityPropagator::new(
        vec![a, b, c],
        [(1, CardinalityBound::range(2, 2))],
    )));
    engine.propagate_all().unwrap();
    assert_eq!(engine.hybrid_domain(a).fixed_value(), Some(1));
}

#[test]
fn prunes_value_when_var_would_exceed_max_alone() {
    let mut engine = Engine::new();
    let a = engine.new_variable(IntervalDomain::new(1, 2));
    let b = engine.new_variable(IntervalDomain::fix(1));
    let c = engine.new_variable(IntervalDomain::fix(1));
    engine.add_propagator(Box::new(GlobalCardinalityPropagator::new(
        vec![a, b, c],
        [(1, CardinalityBound::exact(2))],
    )));
    engine.propagate_all().unwrap();
    assert!(!engine.hybrid_domain(a).contains(1));
}

#[test]
fn empty_domain_after_bounds_loop_returns_failure() {

    let mut engine = Engine::new();
    let a = engine.new_variable(IntervalDomain::new(0, 0));
    let b = engine.new_variable(IntervalDomain::new(0, 0));
    let mut ctx = MockIntCtx::new()
        .with_domain(a, vec![1, 2])
        .with_domain(b, vec![]);
    let mut prop = GlobalCardinalityPropagator::new(vec![a, b], []);
    assert_eq!(prop.propagate(&mut ctx), PropagationStatus::Failure);
}

#[test]
fn mock_propagate_bounds_per_var_support_branches() {

    let mut engine = Engine::new();
    let a = engine.new_variable(IntervalDomain::new(0, 0));
    let b = engine.new_variable(IntervalDomain::new(0, 0));
    let c = engine.new_variable(IntervalDomain::new(0, 0));
    let mut ctx = MockIntCtx::new()
        .with_domain(a, vec![1, 2])
        .with_domain(b, vec![1])
        .with_domain(c, vec![1])
        .with_fixed(b, 1)
        .with_fixed(c, 1);
    let cards = [(1, CardinalityBound::exact(2))].into_iter().collect();
    assert!(propagate_bounds(&mut ctx, &vec![a, b, c], &cards).unwrap());
    assert!(!ctx.values_of(&a).contains(&1));
}

#[test]
fn collect_values_visits_holey_domain_members() {

    let mut engine = Engine::new();
    let a = engine.new_variable(IntervalDomain::new(0, 0));
    let b = engine.new_variable(IntervalDomain::new(0, 0));
    let ctx = MockIntCtx::new().with_domain(a, vec![1, 3, 5]);
    assert_eq!(collect_values(&ctx, a), vec![1, 3, 5]);
    let empty = MockIntCtx::new().with_domain(b, vec![]);
    assert!(collect_values(&empty, b).is_empty());
}

#[test]
fn mock_propagate_bounds_max_exceeded_for_open_var() {

    let mut engine = Engine::new();
    let a = engine.new_variable(IntervalDomain::new(0, 0));
    let b = engine.new_variable(IntervalDomain::new(0, 0));
    let c = engine.new_variable(IntervalDomain::new(0, 0));
    let mut ctx = MockIntCtx::new()
        .with_domain(a, vec![1])
        .with_domain(b, vec![1])
        .with_domain(c, vec![1, 2])
        .with_fixed(a, 1)
        .with_fixed(b, 1);
    let cards = [(1, CardinalityBound::exact(2))].into_iter().collect();
    assert!(propagate_bounds(&mut ctx, &vec![a, b, c], &cards).unwrap());
    assert!(!ctx.values_of(&c).contains(&1));
}

#[test]
fn mock_propagate_bounds_min_support_removes_value() {

    let mut engine = Engine::new();
    let a = engine.new_variable(IntervalDomain::new(0, 0));
    let b = engine.new_variable(IntervalDomain::new(0, 0));
    let c = engine.new_variable(IntervalDomain::new(0, 0));
    let mut ctx = MockIntCtx::new()
        .with_domain(a, vec![1, 2])
        .with_domain(b, vec![1])
        .with_domain(c, vec![2])
        .with_fixed(b, 1)
        .with_fixed(c, 2);
    let cards = [(1, CardinalityBound::range(2, 2))].into_iter().collect();
    assert!(propagate_bounds(&mut ctx, &vec![a, b, c], &cards).unwrap());
    assert_eq!(ctx.values_of(&a).as_slice(), &[1]);
}

#[test]
fn collect_values_iterates_holey_domain_range() {

    let mut engine = Engine::new();
    let a = engine.new_variable(IntervalDomain::new(0, 0));
    let ctx = MockIntCtx::new().with_domain(a, vec![2, 4, 6]);
    assert_eq!(collect_values(&ctx, a), vec![2, 4, 6]);
}

#[test]
fn perfect_matching_exists_for_two_vars() {
    let mut engine = Engine::new();
    let a = engine.new_variable(IntervalDomain::new(1, 2));
    let b = engine.new_variable(IntervalDomain::new(1, 2));
    let vars = vec![a, b];
    assert!(has_perfect_matching(&ReadOnlyEngine(&engine), &vars));
}

#[test]
fn no_perfect_matching_when_domains_too_small() {
    let mut engine = Engine::new();
    let a = engine.new_variable(IntervalDomain::fix(1));
    let b = engine.new_variable(IntervalDomain::fix(1));
    let vars = vec![a, b];
    assert!(!has_perfect_matching(&ReadOnlyEngine(&engine), &vars));
}

#[test]
fn perfect_matching_for_three_by_three_case() {
    let mut engine = Engine::new();
    let a = engine.new_variable(IntervalDomain::new(1, 2));
    let b = engine.new_variable(IntervalDomain::new(1, 2));
    let c = engine.new_variable(IntervalDomain::new(1, 3));
    let vars = vec![a, b, c];
    assert!(has_perfect_matching(&ReadOnlyEngine(&engine), &vars));
}

#[test]
fn value_support_detects_unsupported_assignment() {
    let mut engine = Engine::new();
    let a = engine.new_variable(IntervalDomain::new(1, 2));
    let b = engine.new_variable(IntervalDomain::new(1, 2));
    let c = engine.new_variable(IntervalDomain::new(1, 3));
    let vars = vec![a, b, c];
    assert!(!value_in_some_matching(
        &ReadOnlyEngine(&engine),
        &vars,
        c,
        1
    ));
    assert!(!value_in_some_matching(
        &ReadOnlyEngine(&engine),
        &vars,
        c,
        2
    ));
    assert!(value_in_some_matching(
        &ReadOnlyEngine(&engine),
        &vars,
        c,
        3
    ));
}

#[test]
fn regin_scc_agrees_with_value_support_on_three_by_three() {
    let mut engine = Engine::new();
    let a = engine.new_variable(IntervalDomain::new(1, 2));
    let b = engine.new_variable(IntervalDomain::new(1, 2));
    let c = engine.new_variable(IntervalDomain::new(1, 3));
    let vars = vec![a, b, c];
    assert_regin_agrees_with_hk(&mut engine, &vars);
}

#[test]
fn batch_prune_matches_value_support() {
    let mut engine = Engine::new();
    let a = engine.new_variable(IntervalDomain::new(1, 2));
    let b = engine.new_variable(IntervalDomain::new(1, 2));
    let c = engine.new_variable(IntervalDomain::new(1, 3));
    engine.add_propagator(Box::new(AllDifferentPropagator::new(vec![a, b, c])));
    engine.propagate_all().unwrap();
    assert_eq!(engine.hybrid_domain(c).size(), 1);
    assert_eq!(engine.hybrid_domain(c).min(), Some(3));
}

#[test]
fn regin_scc_agrees_with_value_support_on_four_variables() {
    let mut engine = Engine::new();
    let a = engine.new_variable(IntervalDomain::new(1, 4));
    let b = engine.new_variable(IntervalDomain::new(1, 4));
    let c = engine.new_variable(IntervalDomain::new(1, 4));
    let d = engine.new_variable(IntervalDomain::new(1, 5));
    let vars = vec![a, b, c, d];
    assert_regin_agrees_with_hk(&mut engine, &vars);
}

#[test]
fn regin_scc_agrees_with_value_support_on_random_small_domains() {
    let mut engine = Engine::new();
    let domain_specs = [(1, 4), (1, 4), (1, 5), (2, 5), (1, 3)];
    let vars: Vec<_> = domain_specs
        .iter()
        .map(|&(lo, hi)| engine.new_variable(IntervalDomain::new(lo, hi)))
        .collect();
    assert_regin_agrees_with_hk(&mut engine, &vars);
}

#[test]
fn regin_scc_agrees_with_value_support_on_interval_domains() {
    for n in 2usize..=4usize {
        for lo in 1..=3 {
            for hi in lo..=5 {
                if hi - lo + 1 < n as i32 {
                    continue;
                }
                let mut engine = Engine::new();
                let vars: Vec<_> = (0..n)
                    .map(|_| engine.new_variable(IntervalDomain::new(lo, hi)))
                    .collect();
                assert_regin_agrees_with_hk(&mut engine, &vars);
            }
        }

        let mut engine = Engine::new();
        let mut vars: Vec<_> = (0..n.saturating_sub(1))
            .map(|_| engine.new_variable(IntervalDomain::new(1, 4)))
            .collect();
        vars.push(engine.new_variable(IntervalDomain::new(1, if n == 2 { 4 } else { 5 })));
        assert_regin_agrees_with_hk(&mut engine, &vars);
    }
}

#[test]
fn has_perfect_matching_empty_variables() {
    let engine = Engine::new();
    assert!(has_perfect_matching(&ReadOnlyEngine(&engine), &vec![]));
}

#[test]
fn value_in_some_matching_rejects_out_of_domain_value() {
    let mut engine = Engine::new();
    let a = engine.new_variable(IntervalDomain::new(1, 2));
    let b = engine.new_variable(IntervalDomain::new(1, 2));
    let vars = vec![a, b];
    assert!(!value_in_some_matching(
        &ReadOnlyEngine(&engine),
        &vars,
        a,
        3
    ));
}

#[test]
fn value_in_some_matching_rejects_unknown_variable() {
    let mut engine = Engine::new();
    let a = engine.new_variable(IntervalDomain::new(1, 2));
    let b = engine.new_variable(IntervalDomain::new(1, 2));
    let c = engine.new_variable(IntervalDomain::new(1, 3));
    let vars = vec![a, b];
    assert!(!value_in_some_matching(
        &ReadOnlyEngine(&engine),
        &vars,
        c,
        1
    ));
}

#[test]
fn remove_unsupported_values_no_op_for_single_variable() {
    let mut engine = Engine::new();
    let a = engine.new_variable(IntervalDomain::new(1, 3));
    let vars = vec![a];
    assert_eq!(
        remove_unsupported_values(&mut MutEngine(&mut engine), &vars),
        Ok(false)
    );
}

#[test]
fn remove_unsupported_values_fails_without_perfect_matching() {
    let mut engine = Engine::new();
    let a = engine.new_variable(IntervalDomain::fix(1));
    let b = engine.new_variable(IntervalDomain::fix(1));
    let vars = vec![a, b];
    assert_eq!(
        remove_unsupported_values(&mut MutEngine(&mut engine), &vars),
        Err(())
    );
}

#[test]
fn remove_unsupported_values_prunes_directly() {
    let mut engine = Engine::new();
    let a = engine.new_variable(IntervalDomain::new(1, 2));
    let b = engine.new_variable(IntervalDomain::new(1, 2));
    let c = engine.new_variable(IntervalDomain::new(1, 3));
    let vars = vec![a, b, c];
    assert_eq!(
        remove_unsupported_values(&mut MutEngine(&mut engine), &vars),
        Ok(true)
    );
    assert_eq!(engine.hybrid_domain(c).fixed_value(), Some(3));
}

#[test]
fn apply_regin_pruning_errors_on_missing_match() {
    let mut engine = Engine::new();
    let a = engine.new_variable(IntervalDomain::new(1, 2));
    let b = engine.new_variable(IntervalDomain::new(1, 2));
    let vars = vec![a, b];
    let graph = BipartiteGraph {
        adj: vec![vec![0], vec![1]],
        value_index: [(1, 0), (2, 1)].into_iter().collect(),
        value_count: 2,
    };
    let pair_left = vec![Some(0), None];
    let pair_right = vec![Some(1), None];
    let components = vec![0, 1];
    let mut ctx = MutEngine(&mut engine);
    assert_eq!(
        apply_regin_pruning(
            &mut ctx,
            &vars,
            &graph,
            &pair_left,
            &pair_right,
            &components
        ),
        Err(())
    );
}

#[test]
fn apply_regin_pruning_removes_unknown_and_unsupported_values() {
    let mut engine = Engine::new();
    let var = engine.new_variable(IntervalDomain::new(1, 3));
    let vars = vec![var];
    let graph = BipartiteGraph {
        adj: vec![vec![0, 1]],
        value_index: [(1, 0), (2, 1)].into_iter().collect(),
        value_count: 2,
    };
    let pair_left = vec![Some(0)];
    let pair_right = vec![Some(0), None];
    let components = vec![0, 0];
    let mut ctx = MutEngine(&mut engine);
    assert_eq!(
        apply_regin_pruning(
            &mut ctx,
            &vars,
            &graph,
            &pair_left,
            &pair_right,
            &components
        ),
        Ok(true)
    );
    assert!(!engine.hybrid_domain(var).contains(3));
}

#[test]
fn build_regin_value_graph_skips_unknown_values() {
    let mut engine = Engine::new();
    let var = engine.new_variable(IntervalDomain::new(1, 3));
    let vars = vec![var];
    let ctx = ReadOnlyEngine(&engine);
    let graph = build_bipartite_graph(&ctx, &vars);
    let pair_left = vec![Some(0)];
    let value_graph = build_regin_value_graph(&ctx, &vars, &graph, &pair_left);
    assert_eq!(value_graph.len(), graph.value_count);
}

#[test]
fn build_regin_graph_skips_unmatched_left_nodes() {
    let mut engine = Engine::new();
    let a = engine.new_variable(IntervalDomain::new(1, 2));
    let b = engine.new_variable(IntervalDomain::new(1, 2));
    let vars = vec![a, b];
    let ctx = ReadOnlyEngine(&engine);
    let graph = build_bipartite_graph(&ctx, &vars);
    let pair_left = vec![None, Some(1)];
    let value_graph = build_regin_value_graph(&ctx, &vars, &graph, &pair_left);
    assert_eq!(value_graph.len(), graph.value_count);
}

#[test]
fn mut_engine_exercises_domain_mutators() {
    let mut engine = Engine::new();
    let a = engine.new_variable(IntervalDomain::new(1, 5));
    let mut ctx = MutEngine(&mut engine);
    assert!(ctx.remove_below(a, 2));
    assert!(!ctx.remove_below(a, 2));
    assert!(ctx.remove_above(a, 4));
    assert!(!ctx.remove_above(a, 4));
    assert!(ctx.remove_value(a, 3));
    assert!(!ctx.remove_value(a, 3));
    assert_eq!(ctx.fixed_value(a), None);
}

#[test]
fn read_only_engine_reports_fixed_value() {
    let mut engine = Engine::new();
    let a = engine.new_variable(IntervalDomain::fix(4));
    let ctx = ReadOnlyEngine(&engine);
    assert_eq!(ctx.fixed_value(a), Some(4));
}

#[test]
fn assert_regin_skips_without_perfect_matching() {
    let mut engine = Engine::new();
    let a = engine.new_variable(IntervalDomain::fix(1));
    let b = engine.new_variable(IntervalDomain::fix(1));
    assert_regin_agrees_with_hk(&mut engine, &vec![a, b]);
}

#[test]
fn remove_unsupported_prunes_regin_unsupported_value() {
    let mut engine = Engine::new();
    let a = engine.new_variable(IntervalDomain::new(1, 2));
    let b = engine.new_variable(IntervalDomain::new(1, 2));
    let c = engine.new_variable(IntervalDomain::new(1, 3).remove(2));
    let vars = vec![a, b, c];
    assert_eq!(
        remove_unsupported_values(&mut MutEngine(&mut engine), &vars),
        Ok(true)
    );
    assert_eq!(engine.hybrid_domain(c).fixed_value(), Some(3));
}

#[test]
fn regin_scc_agrees_with_value_support_on_holey_domains() {
    let mut engine = Engine::new();
    let a = engine.new_variable(IntervalDomain::new(1, 4).remove(2));
    let b = engine.new_variable(IntervalDomain::new(1, 4).remove(3));
    let c = engine.new_variable(IntervalDomain::new(1, 5).remove(4));
    assert_regin_agrees_with_hk(&mut engine, &vec![a, b, c]);
}

#[test]
fn build_regin_graph_skips_values_missing_from_index() {

    let mut engine = Engine::new();
    let a = engine.new_variable(IntervalDomain::new(1, 2));
    let b = engine.new_variable(IntervalDomain::new(1, 2));
    let vars = vec![a, b];
    let ctx = ReadOnlyEngine(&engine);
    let graph = build_bipartite_graph(&ctx, &vars);
    let (pair_left, _) = hopcroft_karp_matching(&graph.adj, vars.len(), graph.value_count);
    engine.set_domain(
        a,
        AnyDomain::Int(HybridDomain::Interval(
            IntervalDomain::new(1, 3),
        )),
    );
    let ctx2 = ReadOnlyEngine(&engine);
    let value_graph = build_regin_value_graph(&ctx2, &vars, &graph, &pair_left);
    assert_eq!(value_graph.len(), graph.value_count);
}

#[test]
fn apply_regin_removes_values_outside_stale_graph_index() {

    let mut engine = Engine::new();
    let x0 = engine.new_variable(IntervalDomain::new(0, 1));
    let x1 = engine.new_variable(IntervalDomain::new(0, 1));
    let vars = vec![x0, x1];
    let ctx = MutEngine(&mut engine);
    let graph = build_bipartite_graph(&ctx, &vars);
    let (pair_left, pair_right) =
        hopcroft_karp_matching(&graph.adj, vars.len(), graph.value_count);
    let components = {
        let value_graph = build_regin_value_graph(&ctx, &vars, &graph, &pair_left);
        tarjan_scc(&value_graph, graph.value_count)
    };
    engine.set_domain(
        x0,
        AnyDomain::Int(HybridDomain::Interval(
            IntervalDomain::new(0, 99),
        )),
    );
    let mut ctx2 = MutEngine(&mut engine);
    let mut changed = false;
    for (left, &var) in vars.iter().enumerate() {
        let matched = pair_left[left].expect("matched");
        let matched_component = components[matched];
        for value in collect_values(&ctx2, var) {
            let Some(&value_idx) = graph.value_index.get(&value) else {
                if ctx2.remove_value(var, value) {
                    changed = true;
                }
                continue;
            };
            let _ = regin_supports_value(
                value_idx,
                matched,
                &pair_right,
                matched_component,
                &components,
            );
        }
    }
    assert!(changed);
    assert!(!engine.hybrid_domain(x0).contains(99));
}

#[test]
fn fixed_values_are_removed_from_other_variables() {
    let mut engine = Engine::new();
    let a = engine.new_variable(IntervalDomain::fix(2));
    let b = engine.new_variable(IntervalDomain::new(1, 3));
    let c = engine.new_variable(IntervalDomain::new(1, 3));
    engine.add_propagator(Box::new(AllDifferentPropagator::new(vec![a, b, c])));

    engine.propagate_all().unwrap();
    assert!(!engine.domain(b).contains(2));
    assert!(!engine.domain(c).contains(2));
}

#[test]
fn gac_prunes_unsupported_values() {
    let mut engine = Engine::new();
    let a = engine.new_variable(IntervalDomain::new(1, 2));
    let b = engine.new_variable(IntervalDomain::new(1, 2));
    let c = engine.new_variable(IntervalDomain::new(1, 3));
    engine.add_propagator(Box::new(AllDifferentPropagator::new(vec![a, b, c])));

    engine.propagate_all().unwrap();
    assert_eq!(engine.domain(c).size(), 1);
    assert_eq!(engine.domain(c).min(), Some(3));
}

#[test]
fn empty_successor_domain_fails() {
    let mut engine = Engine::new();
    let x0 = engine.new_variable(IntervalDomain::new(1, 0));
    let x1 = engine.new_variable(IntervalDomain::new(0, 2));
    let x2 = engine.new_variable(IntervalDomain::new(0, 2));
    engine.add_propagator(Box::new(CircuitPropagator::new(vec![x0, x1, x2])));
    assert_eq!(engine.propagate_all().unwrap(), PropagationStatus::Failure);
}

#[test]
fn empty_successor_domain_after_matching_fails() {
    let mut engine = Engine::new();
    let x0 = engine.new_variable(IntervalDomain::new(0, 2));
    let x1 = engine.new_variable(IntervalDomain::new(1, 0));
    engine.add_propagator(Box::new(CircuitPropagator::new(vec![x0, x1])));
    assert_eq!(engine.propagate_all().unwrap(), PropagationStatus::Failure);
}

#[test]
fn removes_self_loops() {
    let mut engine = Engine::new();
    let x0 = engine.new_variable(IntervalDomain::new(0, 2));
    let x1 = engine.new_variable(IntervalDomain::new(0, 2));
    let x2 = engine.new_variable(IntervalDomain::new(0, 2));
    engine.add_propagator(Box::new(CircuitPropagator::new(vec![x0, x1, x2])));
    engine.propagate_all().unwrap();
    assert!(!engine.hybrid_domain(x0).contains(0));
    assert!(!engine.hybrid_domain(x1).contains(1));
    assert!(!engine.hybrid_domain(x2).contains(2));
}

#[test]
fn impossible_circuit_fails() {
    let mut engine = Engine::new();
    let x0 = engine.new_variable(IntervalDomain::fix(1));
    let x1 = engine.new_variable(IntervalDomain::fix(1));
    let x2 = engine.new_variable(IntervalDomain::fix(1));
    engine.add_propagator(Box::new(CircuitPropagator::new(vec![x0, x1, x2])));

    assert_eq!(engine.propagate_all().unwrap(), PropagationStatus::Failure);
}

#[test]
fn no_perfect_matching_after_pruning_fails() {
    let mut engine = Engine::new();
    let x0 = engine.new_variable(IntervalDomain::new(1, 1));
    let x1 = engine.new_variable(IntervalDomain::new(1, 1));
    let x2 = engine.new_variable(IntervalDomain::new(0, 0));
    engine.add_propagator(Box::new(CircuitPropagator::new(vec![x0, x1, x2])));
    assert_eq!(engine.propagate_all().unwrap(), PropagationStatus::Failure);
}

#[test]
fn empty_successor_after_self_loop_removal_fails() {
    let mut engine = Engine::new();
    let x0 = engine.new_variable(IntervalDomain::fix(0));
    let x1 = engine.new_variable(IntervalDomain::new(1, 0));
    engine.add_propagator(Box::new(CircuitPropagator::new(vec![x0, x1])));
    assert_eq!(engine.propagate_all().unwrap(), PropagationStatus::Failure);
}

#[test]
fn matching_exists_but_successor_domain_empty_fails() {

    let mut engine = Engine::new();
    let x0 = engine.new_variable(IntervalDomain::new(0, 0));
    let x1 = engine.new_variable(IntervalDomain::new(0, 0));
    let mut ctx = MockIntCtx::new()
        .with_domain(x0, vec![1])
        .with_domain(x1, vec![]);
    let mut prop = CircuitPropagator::new(vec![x0, x1]);
    assert_eq!(prop.propagate(&mut ctx), PropagationStatus::Failure);
}

#[test]
fn matching_succeeds_but_no_hamiltonian_circuit() {

    let mut engine = Engine::new();
    let x0 = engine.new_variable(IntervalDomain::new(0, 0));
    let x1 = engine.new_variable(IntervalDomain::new(0, 0));
    let x2 = engine.new_variable(IntervalDomain::new(0, 0));
    let mut ctx = MockIntCtx::new()
        .with_domain(x0, vec![1])
        .with_domain(x1, vec![1])
        .with_domain(x2, vec![2]);
    let mut prop = CircuitPropagator::new(vec![x0, x1, x2]);
    assert_eq!(prop.propagate(&mut ctx), PropagationStatus::Failure);
}

#[test]
fn no_perfect_matching_after_regin_pruning_fails() {

    let mut engine = Engine::new();
    let x0 = engine.new_variable(IntervalDomain::new(0, 0));
    let x1 = engine.new_variable(IntervalDomain::new(0, 0));
    let x2 = engine.new_variable(IntervalDomain::new(0, 0));
    let mut ctx = MockIntCtx::new()
        .with_domain(x0, vec![1])
        .with_domain(x1, vec![1])
        .with_domain(x2, vec![2]);
    let mut prop = CircuitPropagator::new(vec![x0, x1, x2]);
    assert_eq!(prop.propagate(&mut ctx), PropagationStatus::Failure);
}

#[test]
fn mock_empty_successor_after_matching_check_fails() {

    let mut engine = Engine::new();
    let x0 = engine.new_variable(IntervalDomain::new(0, 0));
    let x1 = engine.new_variable(IntervalDomain::new(0, 0));
    let mut ctx = MockIntCtx::new()
        .with_domain(x0, vec![1])
        .with_domain(x1, vec![]);
    let mut prop = CircuitPropagator::new(vec![x0, x1]);
    assert_eq!(prop.propagate(&mut ctx), PropagationStatus::Failure);
}

#[test]
fn regin_pruning_breaks_perfect_matching_after_ok_prune() {

    let mut engine = Engine::new();
    let x0 = engine.new_variable(IntervalDomain::new(0, 0));
    let x1 = engine.new_variable(IntervalDomain::new(0, 0));
    let x2 = engine.new_variable(IntervalDomain::new(0, 0));
    let mut ctx = MockIntCtx::new()
        .with_domain(x0, vec![0, 1])
        .with_domain(x1, vec![0, 1])
        .with_domain(x2, vec![0, 1, 2]);
    assert!(remove_unsupported_values(&mut ctx, &vec![x0, x1, x2]).is_ok());
    let mut prop = CircuitPropagator::new(vec![x0, x1, x2]);
    assert_eq!(prop.propagate(&mut ctx), PropagationStatus::Failure);
}

#[test]
fn fixed_forward_propagates_backward() {
    let mut engine = Engine::new();
    let f0 = engine.new_variable(IntervalDomain::new(0, 2));
    let f1 = engine.new_variable(IntervalDomain::new(0, 2));
    let f2 = engine.new_variable(IntervalDomain::new(0, 2));
    let t0 = engine.new_variable(IntervalDomain::new(0, 2));
    let t1 = engine.new_variable(IntervalDomain::new(0, 2));
    let t2 = engine.new_variable(IntervalDomain::new(0, 2));
    engine.add_propagator(Box::new(InversePropagator::new(
        vec![f0, f1, f2],
        vec![t0, t1, t2],
    )));
    engine.fix_variable(f0, 1).unwrap();
    engine.propagate_all().unwrap();
    assert_eq!(engine.domain(t1).fixed_value(), Some(0));
}

// ---- cumulative.rs
#[test]
fn variable_capacity_raises_lower_bound_from_mandatory_usage() {
    let mut engine = Engine::new();
    let start_a = engine.new_variable(IntervalDomain::fix(0));
    let end_a = engine.new_variable(IntervalDomain::fix(2));
    let start_b = engine.new_variable(IntervalDomain::fix(0));
    let end_b = engine.new_variable(IntervalDomain::fix(2));
    let capacity = engine.new_variable(IntervalDomain::new(0, 5));
    let tasks = vec![
        TaskSpec::with_demand(start_a, 2, end_a, 2),
        TaskSpec::with_demand(start_b, 2, end_b, 1),
    ];
    engine.add_propagator(Box::new(CumulativePropagator::with_capacity_var(tasks, capacity)));
    assert!(!engine.commit_initial_propagation().unwrap().is_failure());
    assert_eq!(engine.hybrid_domain(capacity).min(), Some(3));
}

#[test]
fn variable_capacity_conflicts_when_max_too_small() {
    let mut engine = Engine::new();
    let start_a = engine.new_variable(IntervalDomain::fix(0));
    let end_a = engine.new_variable(IntervalDomain::fix(1));
    let start_b = engine.new_variable(IntervalDomain::fix(0));
    let end_b = engine.new_variable(IntervalDomain::fix(1));
    let capacity = engine.new_variable(IntervalDomain::new(0, 1));
    let tasks = vec![TaskSpec::new(start_a, 1, end_a), TaskSpec::new(start_b, 1, end_b)];
    engine.add_propagator(Box::new(CumulativePropagator::with_capacity_var(tasks, capacity)));
    assert!(engine.commit_initial_propagation().unwrap().is_failure());
}

#[test]
fn variable_duration_min_counts_in_mandatory_overload() {
    let mut engine = Engine::new();
    let start_a = engine.new_variable(IntervalDomain::fix(0));
    let end_a = engine.new_variable(IntervalDomain::new(2, 5));
    let dur_a = engine.new_variable(IntervalDomain::new(2, 4));
    let start_b = engine.new_variable(IntervalDomain::fix(0));
    let end_b = engine.new_variable(IntervalDomain::new(2, 5));
    let dur_b = engine.new_variable(IntervalDomain::new(2, 4));
    let tasks = vec![
        TaskSpec::with_variable_spec(start_a, end_a, 2, Some(dur_a), 1, None),
        TaskSpec::with_variable_spec(start_b, end_b, 2, Some(dur_b), 1, None),
    ];
    engine.add_propagator(Box::new(CumulativePropagator::new(tasks, 1)));
    assert!(engine.commit_initial_propagation().unwrap().is_failure());
}

#[test]
fn weighted_demand_overload_records_literals() {
    let mut engine = Engine::new();
    let start_a = engine.new_variable(IntervalDomain::fix(0));
    let end_a = engine.new_variable(IntervalDomain::fix(2));
    let start_b = engine.new_variable(IntervalDomain::fix(0));
    let end_b = engine.new_variable(IntervalDomain::fix(2));
    let tasks = vec![
        TaskSpec::with_demand(start_a, 2, end_a, 2),
        TaskSpec::with_demand(start_b, 2, end_b, 2),
    ];
    let ro = ReadOnlyEngine(&engine);
    let literals = mandatory_overload_literals(&ro, &tasks, 2).expect("overload");
    assert_eq!(literals.len(), 2);
}

#[test]
fn overload_records_mandatory_start_literals() {
    let mut engine = Engine::new();
    let start_a = engine.new_variable(IntervalDomain::fix(0));
    let end_a = engine.new_variable(IntervalDomain::fix(1));
    let start_b = engine.new_variable(IntervalDomain::fix(0));
    let end_b = engine.new_variable(IntervalDomain::fix(1));
    let tasks = vec![TaskSpec::new(start_a, 1, end_a), TaskSpec::new(start_b, 1, end_b)];
    let ro = ReadOnlyEngine(&engine);
    let literals = mandatory_overload_literals(&ro, &tasks, 1).expect("overload");
    assert_eq!(literals.len(), 2);
    assert!(literals.iter().any(|(var, value)| *var == start_a && *value == 0));
    assert!(literals.iter().any(|(var, value)| *var == start_b && *value == 0));
}

#[test]
fn two_unit_tasks_with_capacity_one_conflict() {
    let mut engine = Engine::new();
    let start_a = engine.new_variable(IntervalDomain::new(0, 2));
    let end_a = engine.new_variable(IntervalDomain::new(1, 3));
    let start_b = engine.new_variable(IntervalDomain::new(0, 2));
    let end_b = engine.new_variable(IntervalDomain::new(1, 3));
    let tasks = vec![TaskSpec::new(start_a, 1, end_a), TaskSpec::new(start_b, 1, end_b)];
    engine.add_propagator(Box::new(CumulativePropagator::new(tasks, 1)));
    assert_ne!(engine.fix_variable(start_a, 0).unwrap(), PropagationStatus::Failure);
    assert!(!engine.hybrid_domain(start_b).contains(0));
    assert_eq!(engine.fix_variable(start_b, 0).unwrap(), PropagationStatus::Failure);
}

#[test]
fn three_tasks_allow_sequential_starts() {
    let mut engine = Engine::new();
    let mut tasks = Vec::new();
    for duration in [4, 3, 2] {
        let start = engine.new_variable(IntervalDomain::new(0, 20));
        let end = engine.new_variable(IntervalDomain::new(duration, 24));
        tasks.push(TaskSpec::new(start, duration, end));
    }
    engine.add_propagator(Box::new(CumulativePropagator::new(tasks.clone(), 1)));
    let status = engine.fix_variable(tasks[0].start, 0).unwrap();
    assert_ne!(status, PropagationStatus::Failure);
}

#[test]
fn fixing_non_overlapping_starts_is_solved() {
    let mut engine = Engine::new();
    let start0 = engine.new_variable(IntervalDomain::new(0, 5));
    let end0 = engine.new_variable(IntervalDomain::new(2, 8));
    let start1 = engine.new_variable(IntervalDomain::new(0, 5));
    let end1 = engine.new_variable(IntervalDomain::new(3, 8));
    let tasks = vec![TaskSpec::new(start0, 2, end0), TaskSpec::new(start1, 3, end1)];
    engine.add_propagator(Box::new(CumulativePropagator::new(tasks, 1)));
    engine.fix_variable(start0, 0).unwrap();
    engine.fix_variable(start1, 2).unwrap();
    let status = engine.propagate_all().unwrap();
    assert_ne!(status, PropagationStatus::Failure);
    assert!(engine.is_solved());
}

#[test]
fn precedence_tightens_end_bounds() {
    let mut engine = Engine::new();
    let start = engine.new_variable(IntervalDomain::new(2, 5));
    let end = engine.new_variable(IntervalDomain::new(0, 10));
    let tasks = vec![TaskSpec::new(start, 3, end)];
    engine.add_propagator(Box::new(CumulativePropagator::new(tasks, 2)));
    engine.propagate_all().unwrap();
    assert!(engine.hybrid_domain(end).min().unwrap() >= 5);
}

#[test]
fn fixed_start_fixes_end() {
    let mut engine = Engine::new();
    let start = engine.new_variable(IntervalDomain::fix(4));
    let end = engine.new_variable(IntervalDomain::new(4, 12));
    let tasks = vec![TaskSpec::new(start, 3, end)];
    engine.add_propagator(Box::new(CumulativePropagator::new(tasks, 1)));
    engine.propagate_all().unwrap();
    assert_eq!(engine.hybrid_domain(end).fixed_value(), Some(7));
}

#[test]
fn fixed_end_fixes_start() {
    let mut engine = Engine::new();
    let start = engine.new_variable(IntervalDomain::new(0, 10));
    let end = engine.new_variable(IntervalDomain::fix(9));
    let tasks = vec![TaskSpec::new(start, 3, end)];
    engine.add_propagator(Box::new(CumulativePropagator::new(tasks, 1)));
    engine.propagate_all().unwrap();
    assert_eq!(engine.hybrid_domain(start).fixed_value(), Some(6));
}

#[test]
fn precedence_tightens_start_upper_bound() {
    let mut engine = Engine::new();
    let start = engine.new_variable(IntervalDomain::new(0, 10));
    let end = engine.new_variable(IntervalDomain::new(2, 5));
    let tasks = vec![TaskSpec::new(start, 3, end)];
    engine.add_propagator(Box::new(CumulativePropagator::new(tasks, 1)));
    engine.propagate_all().unwrap();
    assert!(engine.hybrid_domain(start).max().unwrap() <= 2);
}

#[test]
fn variable_duration_and_demand_from_fixed_vars() {
    let mut engine = Engine::new();
    let duration_var = engine.new_variable(IntervalDomain::fix(4));
    let demand_var = engine.new_variable(IntervalDomain::fix(2));
    let start = engine.new_variable(IntervalDomain::new(2, 5));
    let end = engine.new_variable(IntervalDomain::new(0, 12));
    let tasks = vec![TaskSpec::with_variable_spec(start, end, 2, Some(duration_var), 1, Some(demand_var))];
    engine.add_propagator(Box::new(CumulativePropagator::new(tasks, 2)));
    engine.propagate_all().unwrap();
    assert!(engine.hybrid_domain(end).min().unwrap() >= 6);
}

#[test]
fn feasible_schedule_no_change() {
    let mut engine = Engine::new();
    let start = engine.new_variable(IntervalDomain::new(5, 10));
    let end = engine.new_variable(IntervalDomain::new(8, 13));
    let tasks = vec![TaskSpec::new(start, 3, end)];
    engine.add_propagator(Box::new(CumulativePropagator::new(tasks, 2)));
    assert_eq!(engine.propagate_all().unwrap(), PropagationStatus::OkNoChange);
}

#[test]
fn time_table_prunes_overloaded_starts() {
    let mut engine = Engine::new();
    let start_a = engine.new_variable(IntervalDomain::fix(0));
    let end_a = engine.new_variable(IntervalDomain::new(2, 6));
    let start_b = engine.new_variable(IntervalDomain::fix(1));
    let end_b = engine.new_variable(IntervalDomain::new(3, 8));
    let tasks = vec![TaskSpec::new(start_a, 2, end_a), TaskSpec::new(start_b, 2, end_b)];
    engine.add_propagator(Box::new(CumulativePropagator::new(tasks, 1)));
    assert_eq!(engine.propagate_all().unwrap(), PropagationStatus::Failure);
}

#[test]
fn singleton_end_domain_collects_mandatory_contribution() {
    let mut engine = Engine::new();
    let start = engine.new_variable(IntervalDomain::new(0, 8));
    let end = engine.new_variable(IntervalDomain::fix(6));
    let tasks = vec![TaskSpec::new(start, 2, end)];
    engine.add_propagator(Box::new(CumulativePropagator::new(tasks, 1)));
    engine.propagate_all().unwrap();
    assert_eq!(engine.hybrid_domain(start).fixed_value(), Some(4));
}

#[test]
fn mandatory_interval_from_singleton_start_tightens_bounds() {
    let mut engine = Engine::new();
    let start = engine.new_variable(IntervalDomain::fix(2));
    let end = engine.new_variable(IntervalDomain::new(4, 10));
    let tasks = vec![TaskSpec::new(start, 2, end)];
    engine.add_propagator(Box::new(CumulativePropagator::new(tasks, 1)));
    engine.propagate_all().unwrap();
    assert_eq!(engine.hybrid_domain(start).fixed_value(), Some(2));
    assert_eq!(engine.hybrid_domain(end).fixed_value(), Some(4));
}

#[test]
fn fixed_end_contributes_mandatory_interval() {
    let mut engine = Engine::new();
    let start_a = engine.new_variable(IntervalDomain::new(0, 6));
    let end_a = engine.new_variable(IntervalDomain::fix(8));
    let start_b = engine.new_variable(IntervalDomain::new(0, 6));
    let end_b = engine.new_variable(IntervalDomain::fix(8));
    let tasks = vec![TaskSpec::new(start_a, 2, end_a), TaskSpec::new(start_b, 2, end_b)];
    engine.add_propagator(Box::new(CumulativePropagator::new(tasks.clone(), 1)));
    engine.trail_mark();
    let status = engine.fix_variable(start_a, 6).unwrap();
    assert_eq!(status, PropagationStatus::Failure);
    let literals = cumulative_conflict_literals(ReadOnlyEngine(&engine), &tasks, 1).expect("conflict");
    assert_eq!(literals.len(), 2);
}

#[test]
fn empty_domain_records_conflict_literals() {
    let mut engine = Engine::new();
    let start_a = engine.new_variable(IntervalDomain::fix(0));
    let end_a = engine.new_variable(IntervalDomain::new(1, 3));
    let start_b = engine.new_variable(IntervalDomain::fix(0));
    let end_b = engine.new_variable(IntervalDomain::new(1, 3));
    let tasks = vec![TaskSpec::new(start_a, 1, end_a), TaskSpec::new(start_b, 1, end_b)];
    engine.add_propagator(Box::new(CumulativePropagator::new(tasks.clone(), 1)));
    engine.trail_mark();
    assert_eq!(engine.propagate_all().unwrap(), PropagationStatus::Failure);
    assert!(cumulative_conflict_literals(ReadOnlyEngine(&engine), &tasks, 1).is_some());
}

#[test]
fn singleton_start_without_fix_contributes_mandatory() {
    let mut engine = Engine::new();
    let start = engine.new_variable(IntervalDomain::new(2, 2));
    let end = engine.new_variable(IntervalDomain::new(4, 10));
    let tasks = vec![TaskSpec::new(start, 2, end)];
    engine.add_propagator(Box::new(CumulativePropagator::new(tasks, 1)));
    engine.propagate_all().unwrap();
    assert_eq!(engine.hybrid_domain(end).min(), Some(4));
}

#[test]
fn time_table_excess_conflict_records_literals() {
    let mut engine = Engine::new();
    let start_a = engine.new_variable(IntervalDomain::fix(0));
    let end_a = engine.new_variable(IntervalDomain::fix(3));
    let start_b = engine.new_variable(IntervalDomain::fix(0));
    let end_b = engine.new_variable(IntervalDomain::fix(3));
    let tasks = vec![
        TaskSpec::with_demand(start_a, 3, end_a, 2),
        TaskSpec::with_demand(start_b, 3, end_b, 2),
    ];
    let ro = ReadOnlyEngine(&engine);
    assert!(time_table_excess_literals(&ro, &tasks, 2).is_some() || mandatory_overload_literals(&ro, &tasks, 2).is_some());
}

#[test]
fn fixed_start_and_end_tighten_both_bounds() {
    let mut engine = Engine::new();
    let start = engine.new_variable(IntervalDomain::fix(3));
    let end = engine.new_variable(IntervalDomain::new(3, 12));
    let tasks = vec![TaskSpec::new(start, 2, end)];
    engine.add_propagator(Box::new(CumulativePropagator::new(tasks, 1)));
    engine.propagate_all().unwrap();
    assert_eq!(engine.hybrid_domain(end).fixed_value(), Some(5));

    let mut engine = Engine::new();
    let start = engine.new_variable(IntervalDomain::new(0, 10));
    let end = engine.new_variable(IntervalDomain::fix(9));
    let tasks = vec![TaskSpec::new(start, 3, end)];
    engine.add_propagator(Box::new(CumulativePropagator::new(tasks, 1)));
    engine.propagate_all().unwrap();
    assert_eq!(engine.hybrid_domain(start).fixed_value(), Some(6));
}

#[test]
fn propagate_time_table_directly_prunes_overlapping_start() {
    let mut engine = Engine::new();
    let start_a = engine.new_variable(IntervalDomain::fix(0));
    let end_a = engine.new_variable(IntervalDomain::new(2, 6));
    let start_b = engine.new_variable(IntervalDomain::fix(1));
    let end_b = engine.new_variable(IntervalDomain::new(3, 8));
    let start_c = engine.new_variable(IntervalDomain::new(0, 4));
    let end_c = engine.new_variable(IntervalDomain::new(2, 10));
    let tasks = vec![
        TaskSpec::new(start_a, 2, end_a),
        TaskSpec::new(start_b, 2, end_b),
        TaskSpec::new(start_c, 2, end_c),
    ];
    let ctx = MutEngine(&mut engine);
    assert!(propagate_time_table(ctx, &tasks, 1));
    assert!(!engine.hybrid_domain(start_c).contains(0));
}

#[test]
fn forbid_task_during_removes_overlapping_values() {
    let mut engine = Engine::new();
    let start = engine.new_variable(IntervalDomain::new(0, 4).remove(2));
    let end = engine.new_variable(IntervalDomain::new(2, 10));
    let task = TaskSpec::new(start, 2, end);
    let ctx = MutEngine(&mut engine);
    assert!(forbid_task_during(ctx, task, 2, 1, 3));
    assert!(!engine.hybrid_domain(start).contains(0));
    assert!(!engine.hybrid_domain(start).contains(1));
    assert!(engine.hybrid_domain(start).contains(3));
}

#[test]
fn fixed_start_tightens_end_from_both_sides() {
    let mut engine = Engine::new();
    let start = engine.new_variable(IntervalDomain::fix(3));
    let end = engine.new_variable(IntervalDomain::new(5, 12));
    let tasks = vec![TaskSpec::new(start, 2, end)];
    engine.add_propagator(Box::new(CumulativePropagator::new(tasks, 1)));
    engine.propagate_all().unwrap();
    assert_eq!(engine.hybrid_domain(end).fixed_value(), Some(5));
}

#[test]
fn fixed_end_tightens_start_from_both_sides() {
    let mut engine = Engine::new();
    let start = engine.new_variable(IntervalDomain::new(0, 10));
    let end = engine.new_variable(IntervalDomain::fix(11));
    let tasks = vec![TaskSpec::new(start, 2, end)];
    engine.add_propagator(Box::new(CumulativePropagator::new(tasks, 1)));
    engine.propagate_all().unwrap();
    assert_eq!(engine.hybrid_domain(start).fixed_value(), Some(9));
}

#[test]
fn singleton_end_without_fix_contributes_mandatory() {
    let mut engine = Engine::new();
    let start = engine.new_variable(IntervalDomain::new(0, 8));
    let end = engine.new_variable(IntervalDomain::new(6, 6));
    let tasks = vec![TaskSpec::new(start, 2, end)];
    engine.add_propagator(Box::new(CumulativePropagator::new(tasks, 1)));
    engine.propagate_all().unwrap();
    assert_eq!(engine.hybrid_domain(start).fixed_value(), Some(4));
}

#[test]
fn mandatory_interval_from_forced_singleton_start() {
    let mut engine = Engine::new();
    let start_a = engine.new_variable(IntervalDomain::fix(0));
    let end_a = engine.new_variable(IntervalDomain::new(2, 8));
    let start_b = engine.new_variable(IntervalDomain::new(0, 0));
    let end_b = engine.new_variable(IntervalDomain::new(2, 10));
    let tasks = vec![TaskSpec::new(start_a, 4, end_a), TaskSpec::new(start_b, 2, end_b)];
    engine.add_propagator(Box::new(CumulativePropagator::new(tasks, 1)));
    engine.propagate_all().unwrap();
    assert_eq!(engine.hybrid_domain(start_b).fixed_value(), Some(0));
}

#[test]
fn collect_mandatory_contributions_from_singleton_domains() {
    let mut engine = Engine::new();
    let start = engine.new_variable(IntervalDomain::new(2, 2));
    let end = engine.new_variable(IntervalDomain::new(6, 6));
    let tasks = vec![TaskSpec::new(start, 2, end)];
    let ctx = ReadOnlyEngine(&engine);
    let contributions = collect_mandatory_contributions(ctx, &tasks);
    assert_eq!(contributions.len(), 1);
    assert_eq!(contributions[0].start_value, 2);
}

#[test]
fn time_table_excess_literals_detects_weighted_overload() {
    let mut engine = Engine::new();
    let start_a = engine.new_variable(IntervalDomain::fix(0));
    let end_a = engine.new_variable(IntervalDomain::new(3, 6));
    let start_b = engine.new_variable(IntervalDomain::fix(1));
    let end_b = engine.new_variable(IntervalDomain::new(4, 8));
    let tasks = vec![
        TaskSpec::with_demand(start_a, 3, end_a, 2),
        TaskSpec::with_demand(start_b, 3, end_b, 2),
    ];
    let ro = ReadOnlyEngine(&engine);
    assert!(time_table_excess_literals(&ro, &tasks, 2).is_some());
}

#[test]
fn empty_domain_failure_after_precedence_pruning() {
    let mut engine = Engine::new();
    let start = engine.new_variable(IntervalDomain::new(5, 10));
    let end = engine.new_variable(IntervalDomain::new(0, 3));
    let tasks = vec![TaskSpec::new(start, 3, end)];
    engine.add_propagator(Box::new(CumulativePropagator::new(tasks, 1)));
    assert_eq!(engine.propagate_all().unwrap(), PropagationStatus::Failure);
    assert!(engine.hybrid_domain(end).is_empty());
}

#[test]
fn empty_final_domain_records_conflict_literals() {
    let mut engine = Engine::new();
    let start = engine.new_variable(IntervalDomain::new(10, 12));
    let end = engine.new_variable(IntervalDomain::new(0, 5));
    let tasks = vec![TaskSpec::new(start, 3, end)];
    engine.add_propagator(Box::new(CumulativePropagator::new(tasks, 1)));
    engine.trail_mark();
    assert_eq!(engine.propagate_all().unwrap(), PropagationStatus::Failure);
    assert!(engine.hybrid_domain(end).is_empty());
}

#[test]
fn propagate_precedence_fixed_start_tightens_end() {
    let mut engine = Engine::new();
    let start = engine.new_variable(IntervalDomain::fix(3));
    let end = engine.new_variable(IntervalDomain::new(4, 12));
    let tasks = vec![TaskSpec::new(start, 2, end)];
    let ctx = MutEngine(&mut engine);
    assert!(propagate_precedence(ctx, &tasks));
    assert_eq!(engine.hybrid_domain(end).fixed_value(), Some(5));
}

#[test]
fn propagate_precedence_fixed_end_tightens_start() {
    let mut engine = Engine::new();
    let start = engine.new_variable(IntervalDomain::new(0, 10));
    let end = engine.new_variable(IntervalDomain::fix(9));
    let tasks = vec![TaskSpec::new(start, 3, end)];
    let ctx = MutEngine(&mut engine);
    assert!(propagate_precedence(ctx, &tasks));
    assert_eq!(engine.hybrid_domain(start).fixed_value(), Some(6));
}

#[test]
fn collect_mandatory_from_singleton_end_only() {
    let mut engine = Engine::new();
    let start = engine.new_variable(IntervalDomain::new(0, 8));
    let end = engine.new_variable(IntervalDomain::new(6, 6));
    let tasks = vec![TaskSpec::new(start, 2, end)];
    let ctx = ReadOnlyEngine(&engine);
    let contributions = collect_mandatory_contributions(ctx, &tasks);
    assert_eq!(contributions.len(), 1);
    assert_eq!(contributions[0].interval.start, 4);
}

#[test]
fn collect_mandatory_from_singleton_start_only() {
    let mut engine = Engine::new();
    let start = engine.new_variable(IntervalDomain::new(3, 3));
    let end = engine.new_variable(IntervalDomain::new(5, 12));
    let tasks = vec![TaskSpec::new(start, 2, end)];
    let ctx = ReadOnlyEngine(&engine);
    let contributions = collect_mandatory_contributions(ctx, &tasks);
    assert_eq!(contributions.len(), 1);
    assert_eq!(contributions[0].interval.start, 3);
}

#[test]
fn domain_values_skips_empty_domain() {
    let mut engine = Engine::new();
    let start = engine.new_variable(IntervalDomain::new(1, 0));
    let ctx = ReadOnlyEngine(&engine);
    assert!(domain_values(ctx, start).is_empty());
}

#[test]
fn propagate_time_table_tightens_forced_singleton() {
    let mut engine = Engine::new();
    let start = engine.new_variable(IntervalDomain::new(2, 2));
    let end = engine.new_variable(IntervalDomain::new(4, 10));
    let tasks = vec![TaskSpec::new(start, 2, end)];
    let ctx = MutEngine(&mut engine);
    assert!(propagate_time_table(ctx, &tasks, 1));
    assert_eq!(engine.hybrid_domain(end).fixed_value(), Some(4));
}

#[test]
fn propagate_time_table_skips_task_without_bounds() {
    let mut engine = Engine::new();
    let start = engine.new_variable(IntervalDomain::new(1, 0));
    let end = engine.new_variable(IntervalDomain::new(2, 8));
    let tasks = vec![TaskSpec::new(start, 2, end)];
    let ctx = MutEngine(&mut engine);
    assert!(!propagate_time_table(ctx, &tasks, 1));
}

#[test]
fn empty_domain_failure_records_literals_when_available() {
    let mut engine = Engine::new();
    let start_a = engine.new_variable(IntervalDomain::fix(0));
    let end_a = engine.new_variable(IntervalDomain::new(1, 3));
    let start_b = engine.new_variable(IntervalDomain::fix(0));
    let end_b = engine.new_variable(IntervalDomain::new(1, 0));
    let tasks = vec![TaskSpec::new(start_a, 1, end_a), TaskSpec::new(start_b, 1, end_b)];
    engine.add_propagator(Box::new(CumulativePropagator::new(tasks, 1)));
    engine.trail_mark();
    assert_eq!(engine.propagate_all().unwrap(), PropagationStatus::Failure);
}

#[test]
fn collect_mandatory_singleton_start_branch() {
    let mut engine = Engine::new();
    let start = engine.new_variable(IntervalDomain::new(4, 4));
    let end = engine.new_variable(IntervalDomain::new(6, 12));
    let tasks = vec![TaskSpec::new(start, 2, end)];
    let ctx = ReadOnlyEngine(&engine);
    let contributions = collect_mandatory_contributions(ctx, &tasks);
    assert_eq!(contributions.len(), 1);
    assert_eq!(contributions[0].interval.start, 4);
}

#[test]
fn collect_mandatory_singleton_end_branch() {
    let mut engine = Engine::new();
    let start = engine.new_variable(IntervalDomain::new(0, 8));
    let end = engine.new_variable(IntervalDomain::new(8, 8));
    let tasks = vec![TaskSpec::new(start, 2, end)];
    let ctx = ReadOnlyEngine(&engine);
    let contributions = collect_mandatory_contributions(ctx, &tasks);
    assert_eq!(contributions.len(), 1);
    assert_eq!(contributions[0].interval.start, 6);
}

#[test]
fn propagate_time_table_skips_non_forced_tasks() {
    let mut engine = Engine::new();
    let start = engine.new_variable(IntervalDomain::new(0, 8));
    let end = engine.new_variable(IntervalDomain::new(2, 12));
    let tasks = vec![TaskSpec::new(start, 2, end)];
    let ctx = MutEngine(&mut engine);
    assert!(!propagate_time_table(ctx, &tasks, 1));
}

#[test]
fn collect_mandatory_open_singleton_start_branch() {
    let mut engine = Engine::new();
    let start = engine.new_variable(IntervalDomain::new(0, 0));
    let end = engine.new_variable(IntervalDomain::new(0, 0));
    let tasks = vec![TaskSpec::new(start, 2, end)];
    let ctx = MockIntCtx::new().with_domain(start, vec![2]).with_domain(end, vec![4, 5, 6, 7]);
    let contributions = collect_mandatory_contributions(&ctx, &tasks);
    assert_eq!(contributions.len(), 1);
    assert_eq!(contributions[0].interval.start, 2);
    assert_eq!(contributions[0].interval.end, 4);
}

#[test]
fn collect_mandatory_open_singleton_end_branch() {
    let mut engine = Engine::new();
    let start = engine.new_variable(IntervalDomain::new(0, 0));
    let end = engine.new_variable(IntervalDomain::new(0, 0));
    let tasks = vec![TaskSpec::new(start, 2, end)];
    let ctx = MockIntCtx::new().with_domain(start, vec![0, 1, 2, 3]).with_domain(end, vec![6]);
    let contributions = collect_mandatory_contributions(&ctx, &tasks);
    assert_eq!(contributions.len(), 1);
    assert_eq!(contributions[0].interval.start, 4);
    assert_eq!(contributions[0].interval.end, 6);
}

#[test]
fn propagate_precedence_fixed_start_tightens_both_end_bounds() {
    let mut engine = Engine::new();
    let start = engine.new_variable(IntervalDomain::new(0, 0));
    let end = engine.new_variable(IntervalDomain::new(0, 0));
    let tasks = vec![TaskSpec::new(start, 2, end)];
    let mut ctx = MockIntCtx::new()
        .with_domain(start, vec![3])
        .with_domain(end, vec![1, 2, 3, 4, 5, 6, 7, 8])
        .with_fixed(start, 3);
    assert!(propagate_precedence(&mut ctx, &tasks));
    assert_eq!(ctx.values_of(&end).as_slice(), &[5]);
}

#[test]
fn propagate_precedence_fixed_end_tightens_both_start_bounds() {
    let mut engine = Engine::new();
    let start = engine.new_variable(IntervalDomain::new(0, 0));
    let end = engine.new_variable(IntervalDomain::new(0, 0));
    let tasks = vec![TaskSpec::new(start, 2, end)];
    let mut ctx = MockIntCtx::new()
        .with_domain(start, vec![0, 1, 2, 3, 4, 5, 6, 7, 8])
        .with_domain(end, vec![9])
        .with_fixed(end, 9);
    assert!(propagate_precedence(&mut ctx, &tasks));
    assert_eq!(ctx.values_of(&start).as_slice(), &[7]);
}

#[test]
fn propagate_time_table_tightens_open_singleton_bounds() {
    let mut engine = Engine::new();
    let start = engine.new_variable(IntervalDomain::new(0, 0));
    let end = engine.new_variable(IntervalDomain::new(0, 0));
    let tasks = vec![TaskSpec::new(start, 2, end)];
    let mut ctx = MockIntCtx::new().with_domain(start, vec![2]).with_domain(end, vec![2, 3, 4, 5, 6, 7, 8]);
    assert!(propagate_time_table(&mut ctx, &tasks, 1));
    assert_eq!(ctx.values_of(&start).as_slice(), &[2]);
    assert_eq!(ctx.values_of(&end).as_slice(), &[4]);
}

#[test]
fn propagate_time_table_skips_task_with_empty_end_max() {
    let mut engine = Engine::new();
    let start = engine.new_variable(IntervalDomain::new(0, 0));
    let end = engine.new_variable(IntervalDomain::new(0, 0));
    let tasks = vec![TaskSpec::new(start, 2, end)];
    let mut ctx = MockIntCtx::new().with_domain(start, vec![2]).with_domain(end, vec![]);
    assert!(!propagate_time_table(&mut ctx, &tasks, 1));
}

#[test]
fn empty_domain_after_loop_records_conflict_literals() {
    let mut engine = Engine::new();
    let start_a = engine.new_variable(IntervalDomain::fix(0));
    let end_a = engine.new_variable(IntervalDomain::new(1, 3));
    let start_b = engine.new_variable(IntervalDomain::fix(0));
    let end_b = engine.new_variable(IntervalDomain::new(1, 3));
    let tasks = vec![TaskSpec::new(start_a, 1, end_a), TaskSpec::new(start_b, 1, end_b)];
    engine.add_propagator(Box::new(CumulativePropagator::new(tasks, 1)));
    let ctx = MutEngine(&mut engine);
    assert!(propagate_precedence(ctx, &vec![TaskSpec::new(start_a, 1, end_a), TaskSpec::new(start_b, 1, end_b)]));
    engine.set_domain(end_b, AnyDomain::Int(HybridDomain::Interval(IntervalDomain::new(1, 0))));
    engine.trail_mark();
    assert_eq!(engine.propagate_all().unwrap(), PropagationStatus::Failure);
}

#[test]
fn propagate_precedence_fixed_bounds_remove_both_sides() {
    let mut engine = Engine::new();
    let start = engine.new_variable(IntervalDomain::new(0, 0));
    let end = engine.new_variable(IntervalDomain::new(0, 0));
    let tasks = vec![TaskSpec::new(start, 2, end)];
    let mut ctx = MockIntCtx::new()
        .with_domain(start, vec![3])
        .with_domain(end, vec![1, 2, 3, 4, 5, 6, 7, 8, 9])
        .with_fixed(start, 3);
    assert!(propagate_precedence(&mut ctx, &tasks));
    assert_eq!(ctx.values_of(&end).as_slice(), &[5]);

    let start2 = engine.new_variable(IntervalDomain::new(0, 0));
    let end2 = engine.new_variable(IntervalDomain::new(0, 0));
    let tasks2 = vec![TaskSpec::new(start2, 2, end2)];
    let mut ctx2 = MockIntCtx::new()
        .with_domain(start2, vec![0, 1, 2, 3, 4, 5, 6, 7, 8])
        .with_domain(end2, vec![9])
        .with_fixed(end2, 9);
    assert!(propagate_precedence(&mut ctx2, &tasks2));
    assert_eq!(ctx2.values_of(&start2).as_slice(), &[7]);
}

#[test]
fn mock_propagate_precedence_fixed_start_tightens_end_both_ways() {
    let mut engine = Engine::new();
    let start = engine.new_variable(IntervalDomain::new(0, 0));
    let end = engine.new_variable(IntervalDomain::new(0, 0));
    let tasks = vec![TaskSpec::new(start, 2, end)];
    let mut ctx = MockIntCtx::new()
        .with_domain(start, vec![5])
        .with_domain(end, vec![5, 6, 7, 8])
        .with_fixed(start, 5);
    assert!(propagate_precedence(&mut ctx, &tasks));
    assert_eq!(ctx.values_of(&end).as_slice(), &[7]);
}

#[test]
fn mock_propagate_precedence_fixed_end_tightens_start_both_ways() {
    let mut engine = Engine::new();
    let start = engine.new_variable(IntervalDomain::new(0, 0));
    let end = engine.new_variable(IntervalDomain::new(0, 0));
    let tasks = vec![TaskSpec::new(start, 2, end)];
    let mut ctx = MockIntCtx::new()
        .with_domain(start, vec![0, 1, 2, 3, 4, 5])
        .with_domain(end, vec![7])
        .with_fixed(end, 7);
    assert!(propagate_precedence(&mut ctx, &tasks));
    assert_eq!(ctx.values_of(&start).as_slice(), &[5]);
}

#[test]
fn mock_propagate_time_table_tightens_open_singleton_mandatory_bounds() {
    let mut engine = Engine::new();
    let start = engine.new_variable(IntervalDomain::new(0, 0));
    let end = engine.new_variable(IntervalDomain::new(0, 0));
    let start_b = engine.new_variable(IntervalDomain::new(0, 0));
    let end_b = engine.new_variable(IntervalDomain::new(0, 0));
    let tasks = vec![TaskSpec::new(start, 2, end), TaskSpec::new(start_b, 1, end_b)];
    let mut ctx = MockIntCtx::new()
        .with_open_singleton(start, 2)
        .with_domain(end, vec![2, 3, 4, 5, 6, 7, 8])
        .with_open_singleton(start_b, 0)
        .with_domain(end_b, vec![1]);
    assert!(propagate_time_table(&mut ctx, &tasks, 1));
    assert_eq!(ctx.domain_values(start), vec![2]);
    assert_eq!(ctx.domain_values(end), vec![4]);
}

#[test]
fn empty_domain_after_propagation_records_conflict_literals() {
    let mut engine = Engine::new();
    let start = engine.new_variable(IntervalDomain::new(0, 0));
    let end = engine.new_variable(IntervalDomain::new(0, 0));
    let mut ctx = MockIntCtx::new().with_domain(start, vec![0]).with_domain(end, vec![]);
    let mut prop = CumulativePropagator::new(vec![TaskSpec::new(start, 1, end)], 1);
    assert_eq!(prop.propagate(&mut ctx), PropagationStatus::Failure);
}

#[test]
fn cumulative_failure_records_literals_on_empty_domain() {
    let mut engine = Engine::new();
    let start_a = engine.new_variable(IntervalDomain::fix(0));
    let end_a = engine.new_variable(IntervalDomain::new(1, 3));
    let start_b = engine.new_variable(IntervalDomain::fix(0));
    let end_b = engine.new_variable(IntervalDomain::new(1, 0));
    engine.trail_mark();
    engine.add_propagator(Box::new(CumulativePropagator::new(
        vec![TaskSpec::new(start_a, 1, end_a), TaskSpec::new(start_b, 1, end_b)],
        1,
    )));
    assert_eq!(engine.propagate_all().unwrap(), PropagationStatus::Failure);
}

#[test]
fn mock_cumulative_records_conflict_after_loop_empties_domain() {
    let mut engine = Engine::new();
    let start_a = engine.new_variable(IntervalDomain::new(0, 0));
    let end_a = engine.new_variable(IntervalDomain::new(0, 0));
    let start_b = engine.new_variable(IntervalDomain::new(0, 0));
    let end_b = engine.new_variable(IntervalDomain::new(0, 0));
    let mut ctx = MockIntCtx::new()
        .with_domain(start_a, vec![0])
        .with_domain(end_a, vec![0, 1])
        .with_domain(start_b, vec![10, 11, 12])
        .with_domain(end_b, vec![13, 14, 15])
        .with_fixed(start_a, 0);
    let mut prop = CumulativePropagator::new(vec![TaskSpec::new(start_a, 3, end_a), TaskSpec::new(start_b, 3, end_b)], 1);
    assert_eq!(prop.propagate(&mut ctx), PropagationStatus::Failure);
    assert!(ctx.values_of(&end_a).is_empty());
}

#[test]
fn mock_propagate_precedence_fixed_start_only_block_tightens_end() {
    let mut engine = Engine::new();
    let start = engine.new_variable(IntervalDomain::new(0, 0));
    let end = engine.new_variable(IntervalDomain::new(0, 0));
    let tasks = vec![TaskSpec::new(start, 2, end)];
    let mut ctx = MockIntCtx::new()
        .with_domain(start, vec![0, 1, 2, 3, 4, 5])
        .with_domain(end, vec![6, 7, 8])
        .with_fixed(start, 5);
    assert!(propagate_precedence(&mut ctx, &tasks));
    assert_eq!(ctx.values_of(&end).as_slice(), &[7]);
}

#[test]
fn mock_propagate_precedence_fixed_end_only_block_tightens_start() {
    let mut engine = Engine::new();
    let start = engine.new_variable(IntervalDomain::new(0, 0));
    let end = engine.new_variable(IntervalDomain::new(0, 0));
    let tasks = vec![TaskSpec::new(start, 2, end)];
    let mut ctx = MockIntCtx::new()
        .with_domain(start, vec![0, 1, 2, 3, 4, 5, 6, 7, 8, 9, 10, 11, 12])
        .with_domain(end, vec![7, 8, 9, 10])
        .with_fixed(end, 9);
    assert!(propagate_precedence(&mut ctx, &tasks));
    assert_eq!(ctx.values_of(&start).as_slice(), &[7]);
}

#[test]
fn mock_propagate_time_table_tightens_all_mandatory_bounds() {
    let mut engine = Engine::new();
    let start = engine.new_variable(IntervalDomain::new(0, 0));
    let end = engine.new_variable(IntervalDomain::new(0, 0));
    let start_b = engine.new_variable(IntervalDomain::new(0, 0));
    let end_b = engine.new_variable(IntervalDomain::new(0, 0));
    let tasks = vec![TaskSpec::new(start, 2, end), TaskSpec::new(start_b, 1, end_b)];
    let mut ctx = MockIntCtx::new()
        .with_domain(start, vec![0, 1, 2, 3])
        .with_domain(end, vec![2, 3, 4, 5, 6, 7, 8])
        .with_fixed(start, 2)
        .with_open_singleton(start_b, 0)
        .with_domain(end_b, vec![1]);
    assert!(propagate_time_table(&mut ctx, &tasks, 1));
}

#[test]
fn edge_finding_prunes_start_beyond_time_table() {
    let mut engine = Engine::new();
    let start_a = engine.new_variable(IntervalDomain::new(0, 2));
    let end_a = engine.new_variable(IntervalDomain::new(3, 4));
    let start_b = engine.new_variable(IntervalDomain::new(0, 2));
    let end_b = engine.new_variable(IntervalDomain::new(3, 4));
    let start_c = engine.new_variable(IntervalDomain::new(0, 4));
    let end_c = engine.new_variable(IntervalDomain::new(2, 6));
    let tasks = vec![
        TaskSpec::new(start_a, 3, end_a),
        TaskSpec::new(start_b, 3, end_b),
        TaskSpec::with_demand(start_c, 2, end_c, 2),
    ];
    let snapshot = {
        let ro = ReadOnlyEngine(&engine);
        collect_edge_finding_tasks(ro, &tasks)
    };
    assert_eq!(snapshot.len(), 3);
    assert!(!propagate_time_table(MutEngine(&mut engine), &tasks, 2));
    assert!(propagate_edge_finding(MutEngine(&mut engine), &tasks, 2));
    assert!(engine.hybrid_domain(start_c).min().unwrap() >= 3);
}

#[test]
fn edge_finding_energy_overload_records_est_literals() {
    let mut engine = Engine::new();
    let start_a = engine.new_variable(IntervalDomain::new(0, 0));
    let end_a = engine.new_variable(IntervalDomain::new(2, 2));
    let start_b = engine.new_variable(IntervalDomain::new(0, 0));
    let end_b = engine.new_variable(IntervalDomain::new(2, 2));
    let tasks = vec![TaskSpec::new(start_a, 2, end_a), TaskSpec::new(start_b, 2, end_b)];
    let ro = ReadOnlyEngine(&engine);
    let literals = energy_overload_literals(ro, &tasks, 1).expect("energy overload");
    assert_eq!(literals.len(), 2);
}

#[test]
fn edge_finding_with_variable_duration_demand_and_capacity() {
    let mut engine = Engine::new();
    let start_a = engine.new_variable(IntervalDomain::new(0, 2));
    let end_a = engine.new_variable(IntervalDomain::new(3, 4));
    let dur_a = engine.new_variable(IntervalDomain::new(3, 5));
    let start_b = engine.new_variable(IntervalDomain::new(0, 2));
    let end_b = engine.new_variable(IntervalDomain::new(3, 4));
    let dur_b = engine.new_variable(IntervalDomain::new(3, 5));
    let start_c = engine.new_variable(IntervalDomain::new(0, 4));
    let end_c = engine.new_variable(IntervalDomain::new(2, 6));
    let dem_c = engine.new_variable(IntervalDomain::new(2, 3));
    let capacity = engine.new_variable(IntervalDomain::fix(2));
    let tasks = vec![
        TaskSpec::with_variable_spec(start_a, end_a, 3, Some(dur_a), 1, None),
        TaskSpec::with_variable_spec(start_b, end_b, 3, Some(dur_b), 1, None),
        TaskSpec::with_variable_spec(start_c, end_c, 2, None, 2, Some(dem_c)),
    ];
    engine.add_propagator(Box::new(CumulativePropagator::with_capacity_var(tasks.clone(), capacity)));
    assert!(!engine.commit_initial_propagation().unwrap().is_failure());
    assert!(engine.hybrid_domain(start_c).min().unwrap() >= 3);
}

#[test]
fn edge_finding_symmetric_lct_prune() {
    let mut engine = Engine::new();
    let start_a = engine.new_variable(IntervalDomain::new(0, 1));
    let end_a = engine.new_variable(IntervalDomain::new(3, 4));
    let start_b = engine.new_variable(IntervalDomain::new(0, 1));
    let end_b = engine.new_variable(IntervalDomain::new(3, 4));
    let start_c = engine.new_variable(IntervalDomain::new(0, 4));
    let end_c = engine.new_variable(IntervalDomain::new(2, 6));
    let tasks = vec![
        TaskSpec::new(start_a, 3, end_a),
        TaskSpec::new(start_b, 3, end_b),
        TaskSpec::with_demand(start_c, 2, end_c, 2),
    ];
    let before_max = engine.hybrid_domain(end_c).max().unwrap();
    let changed = propagate_edge_finding(MutEngine(&mut engine), &tasks, 2);
    assert!(changed || engine.hybrid_domain(start_c).min().unwrap() >= 3);
    if changed && engine.hybrid_domain(start_c).min().unwrap() < 3 {
        assert!(engine.hybrid_domain(end_c).max().unwrap() < before_max);
    }
}

#[test]
fn disjunctive_detectable_precedence_keeps_every_schedule() {
    let mut engine = Engine::new();
    let o = engine.new_variable(IntervalDomain::new(0, 10));
    let a = engine.new_variable(IntervalDomain::new(0, 20));
    let b = engine.new_variable(IntervalDomain::new(0, 20));
    let mut prop = DisjunctivePropagator::new(vec![
        DisjunctiveTask { start: o, duration: 1 },
        DisjunctiveTask { start: a, duration: 6 },
        DisjunctiveTask { start: b, duration: 6 },
    ]);
    let status = prop.propagate(MutEngine(&mut engine));
    assert_ne!(status, PropagationStatus::Failure);
    assert!(engine.domain(o).contains(0));
    assert!(engine.domain(a).contains(1));
    assert!(engine.domain(b).contains(7));
}

#[test]
fn overlapping_fixed_starts_record_conflict_literals() {
    let mut engine = Engine::new();
    let start_a = engine.new_variable(IntervalDomain::new(0, 10));
    let start_b = engine.new_variable(IntervalDomain::new(0, 10));
    engine.trail_mark();
    engine.fix_variable(start_a, 0).unwrap();
    engine.fix_variable(start_b, 0).unwrap();
    engine.add_propagator(Box::new(DisjunctivePropagator::new(vec![
        DisjunctiveTask {
            start: start_a,
            duration: 1,
        },
        DisjunctiveTask {
            start: start_b,
            duration: 1,
        },
    ])));
    assert_eq!(engine.propagate_all().unwrap(), PropagationStatus::Failure);
}

#[test]
fn int_minmax_min_cuts_operands_to_result_lower_bound() {
    let mut engine = Engine::new();
    let a = engine.new_variable(IntervalDomain::new(0, 10));
    let b = engine.new_variable(IntervalDomain::new(5, 8));
    let c = engine.new_variable(IntervalDomain::new(3, 6));
    engine.add_propagator(Box::new(IntMinMaxPropagator::new(a, b, c, IntMinMaxOp::Min)));
    assert_ne!(engine.propagate_all().unwrap(), PropagationStatus::Failure);
    assert_eq!(engine.hybrid_domain(a).min(), Some(3));
    assert_eq!(engine.hybrid_domain(a).max(), Some(10));
    assert_eq!(engine.hybrid_domain(b).min(), Some(5));
    assert_eq!(engine.hybrid_domain(c).min(), Some(3));
    assert_eq!(engine.hybrid_domain(c).max(), Some(6));
}

#[test]
fn int_minmax_max_cuts_operands_to_result_upper_bound() {
    let mut engine = Engine::new();
    let a = engine.new_variable(IntervalDomain::new(0, 10));
    let b = engine.new_variable(IntervalDomain::new(2, 4));
    let c = engine.new_variable(IntervalDomain::new(1, 6));
    engine.add_propagator(Box::new(IntMinMaxPropagator::new(a, b, c, IntMinMaxOp::Max)));
    assert_ne!(engine.propagate_all().unwrap(), PropagationStatus::Failure);
    assert_eq!(engine.hybrid_domain(a).max(), Some(6));
    assert_eq!(engine.hybrid_domain(b).max(), Some(4));
    assert_eq!(engine.hybrid_domain(c).min(), Some(2));
    assert_eq!(engine.hybrid_domain(c).max(), Some(6));
}

#[test]
fn int_minmax_min_forced_operand_shares_bounds_with_result() {
    let mut engine = Engine::new();
    let a = engine.new_variable(IntervalDomain::new(5, 9));
    let b = engine.new_variable(IntervalDomain::new(1, 4));
    let c = engine.new_variable(IntervalDomain::new(0, 10));
    engine.add_propagator(Box::new(IntMinMaxPropagator::new(a, b, c, IntMinMaxOp::Min)));
    assert_ne!(engine.propagate_all().unwrap(), PropagationStatus::Failure);
    assert_eq!(engine.hybrid_domain(c).min(), Some(1));
    assert_eq!(engine.hybrid_domain(c).max(), Some(4));
    assert_eq!(engine.hybrid_domain(b).min(), Some(1));
    assert_eq!(engine.hybrid_domain(b).max(), Some(4));
}

#[test]
fn int_abs_mixed_sign_operand_cut_to_result_magnitude() {
    let mut engine = Engine::new();
    let a = engine.new_variable(IntervalDomain::new(-5, 7));
    let b = engine.new_variable(IntervalDomain::new(0, 3));
    engine.add_propagator(Box::new(IntAbsPropagator::new(a, b)));
    assert_ne!(engine.propagate_all().unwrap(), PropagationStatus::Failure);
    assert_eq!(engine.hybrid_domain(a).min(), Some(-3));
    assert_eq!(engine.hybrid_domain(a).max(), Some(3));
    assert_eq!(engine.hybrid_domain(b).min(), Some(0));
    assert_eq!(engine.hybrid_domain(b).max(), Some(3));
}
