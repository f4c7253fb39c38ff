//! Forbidding one complete assignment of integer and set variables.
use vstd::prelude::*;

use crate::domain::{least, seq_has, DomainStore, PropagationStatus, VariableId};
use crate::set_domain::{lemma_values_of_has, set_domain_empty, values_of, vec_has, SetDomainView, SetStore};

verus! {

/// A value forbidden for one variable of a blocked assignment.
pub enum ForbiddenValue {
    /// An integer variable may not take this value.
    Int(i32),
    /// A set variable may not be exactly the set of these values.
    IntSet(Vec<i32>),
}

/// How the current domains relate to one literal of a forbidden assignment.
#[derive(Clone, Copy, Debug, PartialEq, Eq, Structural)]
pub enum AssignmentStatus {
    /// The variable is fixed to the forbidden value.
    Matches,
    /// The variable can no longer take the forbidden value.
    Conflicts,
    /// The variable may still take the forbidden value, or another.
    Open,
}

/// Status of the literal "integer domain `d` takes `e`".
pub open spec fn int_status(d: Set<int>, e: int) -> AssignmentStatus {
    if d == set![e] {
        AssignmentStatus::Matches
    } else if d.contains(e) {
        AssignmentStatus::Open
    } else {
        AssignmentStatus::Conflicts
    }
}

/// Status of the literal "set domain `d` takes the set `e`".
pub open spec fn set_status(d: SetDomainView, e: Set<int>) -> AssignmentStatus {
    if set_domain_empty(d) {
        AssignmentStatus::Conflicts
    } else if d.glb == e && d.lub == e {
        AssignmentStatus::Matches
    } else if e.subset_of(d.lub) && d.glb.subset_of(e) {
        AssignmentStatus::Open
    } else {
        AssignmentStatus::Conflicts
    }
}

/// Status of a literal on the integer domains `ints` and the set domains `sets`.
pub open spec fn literal_status(
    ints: Seq<Set<int>>,
    sets: Seq<SetDomainView>,
    var: VariableId,
    value: ForbiddenValue,
) -> AssignmentStatus {
    match value {
        ForbiddenValue::Int(e) => int_status(ints[var.index as int], e as int),
        ForbiddenValue::IntSet(v) => set_status(sets[var.index as int], values_of(v@)),
    }
}

/// The literal names a variable of the store that holds its kind.
pub open spec fn literal_in_range(ints: Seq<Set<int>>, sets: Seq<SetDomainView>, var: VariableId, value: ForbiddenValue) -> bool {
    match value {
        ForbiddenValue::Int(_) => var.index < ints.len(),
        ForbiddenValue::IntSet(_) => var.index < sets.len(),
    }
}

/// Whether every value of `a` occurs in `b`.
fn all_in(a: &Vec<i32>, b: &Vec<i32>) -> (r: bool)
    ensures
        r == values_of(a@).subset_of(values_of(b@)),
{
    let mut i: usize = 0;
    while i < a.len()
        invariant
            0 <= i <= a@.len(),
            forall|k: int| 0 <= k < i ==> seq_has(b@, #[trigger] a@[k] as int),
        decreases a@.len() - i,
    {
        if !vec_has(b, a[i]) {
            proof {
                lemma_values_of_has(a@, a@[i as int] as int);
                lemma_values_of_has(b@, a@[i as int] as int);
                assert(seq_has(a@, a@[i as int] as int));
            }
            return false;
        }
        i = i + 1;
    }
    proof {
        assert forall|x: int| #[trigger] values_of(a@).contains(x) implies values_of(b@).contains(x) by {
            lemma_values_of_has(a@, x);
            lemma_values_of_has(b@, x);
            let k = choose|k: int| 0 <= k < a@.len() && a@[k] == x;
            assert(seq_has(b@, a@[k] as int));
        }
    }
    true
}

/// Whether `a` and `b` hold the same values.
fn same_values(a: &Vec<i32>, b: &Vec<i32>) -> (r: bool)
    ensures
        r == (values_of(a@) == values_of(b@)),
{
    let ab = all_in(a, b);
    let ba = all_in(b, a);
    proof {
        if ab && ba {
            assert(values_of(a@) =~= values_of(b@));
        }
    }
    ab && ba
}

/// Status of the literal `var = value` on the current domains.
pub fn assignment_status(ints: &DomainStore, sets: &SetStore, var: VariableId, value: &ForbiddenValue) -> (st: AssignmentStatus)
    requires
        literal_in_range(ints@, sets@, var, *value),
    ensures
        st == literal_status(ints@, sets@, var, *value),
{
    match value {
        ForbiddenValue::Int(expected) => {
            match ints.fixed_value(var) {
                Some(actual) => {
                    if actual == *expected {
                        AssignmentStatus::Matches
                    } else {
                        proof {
                            assert(!set![actual as int].contains(*expected as int));
                            if ints@[var.index as int] == set![*expected as int] {
                                assert(set![actual as int].contains(actual as int));
                            }
                        }
                        AssignmentStatus::Conflicts
                    }
                },
                None => {
                    if ints.contains(var, *expected) {
                        AssignmentStatus::Open
                    } else {
                        AssignmentStatus::Conflicts
                    }
                },
            }
        },
        ForbiddenValue::IntSet(expected) => {
            let domain = sets.domain(var);
            if domain.is_empty() {
                return AssignmentStatus::Conflicts;
            }
            if same_values(domain.glb(), expected) && same_values(domain.lub(), expected) {
                AssignmentStatus::Matches
            } else if all_in(expected, domain.lub()) && all_in(domain.glb(), expected) {
                AssignmentStatus::Open
            } else {
                AssignmentStatus::Conflicts
            }
        },
    }
}

/// The set domain `d` after the literal "is the set `e`" is branched away from at the
/// undecided value `p`: out of the set if `e` holds it, into the set otherwise.
pub open spec fn forbid_set_step(d: SetDomainView, e: Set<int>, p: int) -> SetDomainView {
    if e.contains(p) {
        SetDomainView { lub: d.lub.remove(p), ..d }
    } else {
        SetDomainView { glb: d.glb.insert(p), ..d }
    }
}

/// Forbidding the literal `var = value` took the stores from `ints0`, `sets0` to
/// `ints1`, `sets1` and answered `status`: an integer value leaves the domain (failing
/// when that empties it); a set domain with no undecided value fails exactly when it is
/// the forbidden set, and otherwise its least undecided value is decided against the
/// forbidden set (failing when that leaves no set).
pub open spec fn forbid_effect(
    ints0: Seq<Set<int>>,
    sets0: Seq<SetDomainView>,
    ints1: Seq<Set<int>>,
    sets1: Seq<SetDomainView>,
    var: VariableId,
    value: ForbiddenValue,
    status: PropagationStatus,
) -> bool {
    let x = var.index as int;
    match value {
        ForbiddenValue::Int(e) => {
            &&& sets1 == sets0
            &&& if ints0[x].contains(e as int) {
                &&& ints1 == ints0.update(x, ints0[x].remove(e as int))
                &&& status == (if ints0[x].remove(e as int).is_empty() {
                    PropagationStatus::Failure
                } else {
                    PropagationStatus::OkChanged
                })
            } else {
                ints1 == ints0 && status == PropagationStatus::OkNoChange
            }
        },
        ForbiddenValue::IntSet(v) => {
            let d = sets0[x];
            let e = values_of(v@);
            &&& ints1 == ints0
            &&& if d.lub.difference(d.glb).is_empty() {
                &&& sets1 == sets0
                &&& status == (if d.glb == e { PropagationStatus::Failure } else { PropagationStatus::OkNoChange })
            } else {
                let p = least(d.lub.difference(d.glb));
                &&& sets1 == sets0.update(x, forbid_set_step(d, e, p))
                &&& status == (if set_domain_empty(forbid_set_step(d, e, p)) {
                    PropagationStatus::Failure
                } else {
                    PropagationStatus::OkChanged
                })
            }
        },
    }
}

/// Forbids the literal `var = value`: see [`forbid_effect`].
pub fn forbid_value(ints: &mut DomainStore, sets: &mut SetStore, var: VariableId, value: &ForbiddenValue) -> (status: PropagationStatus)
    requires
        literal_in_range(old(ints)@, old(sets)@, var, *value),
    ensures
        forbid_effect(old(ints)@, old(sets)@, final(ints)@, final(sets)@, var, *value, status),
{
    match value {
        ForbiddenValue::Int(expected) => {
            if ints.remove_value(var, *expected) {
                if ints.is_empty(var) {
                    PropagationStatus::Failure
                } else {
                    PropagationStatus::OkChanged
                }
            } else {
                match ints.fixed_value(var) {
                    Some(actual) => {
                        if actual == *expected {
                            proof {
                                assert(set![actual as int].contains(actual as int));
                            }
                            PropagationStatus::Failure
                        } else {
                            PropagationStatus::OkNoChange
                        }
                    },
                    None => PropagationStatus::OkNoChange,
                }
            }
        },
        ForbiddenValue::IntSet(expected) => {
            let ghost x = var.index as int;
            let ghost d = sets@[x];
            let ghost e = values_of(expected@);
            let undecided = sets.domain(var).undecided();
            if undecided.len() == 0 {
                proof {
                    assert(undecided@.map_values(|u: i32| u as int) =~= Seq::<int>::empty());
                    assert(values_of(undecided@) =~= Set::<int>::empty());
                }
                return if same_values(sets.domain(var).glb(), expected) {
                    PropagationStatus::Failure
                } else {
                    PropagationStatus::OkNoChange
                };
            }
            let mut pivot = undecided[0];
            let mut k: usize = 1;
            while k < undecided.len()
                invariant
                    1 <= k <= undecided@.len(),
                    seq_has(undecided@, pivot as int),
                    forall|j: int| 0 <= j < k ==> pivot <= #[trigger] undecided@[j],
                decreases undecided@.len() - k,
            {
                if undecided[k] < pivot {
                    pivot = undecided[k];
                }
                k = k + 1;
            }
            proof {
                lemma_values_of_has(undecided@, pivot as int);
                assert(seq_has(undecided@, pivot as int));
                assert(d.lub.difference(d.glb).contains(pivot as int));
                assert forall|v: int| #[trigger] d.lub.difference(d.glb).contains(v) implies pivot <= v by {
                    lemma_values_of_has(undecided@, v);
                    let j = choose|j: int| 0 <= j < undecided@.len() && undecided@[j] == v;
                    assert(pivot <= undecided@[j]);
                }
                crate::domain::lemma_least_is(d.lub.difference(d.glb), pivot as int);
                lemma_values_of_has(expected@, pivot as int);
            }
            let changed = if vec_has(expected, pivot) {
                sets.force_out(var, pivot)
            } else {
                sets.force_in(var, pivot)
            };
            proof {
                assert(sets@ == old(sets)@.update(x, forbid_set_step(d, e, pivot as int)));
            }
            if sets.domain(var).is_empty() {
                return PropagationStatus::Failure;
            }
            if changed {
                PropagationStatus::OkChanged
            } else {
                PropagationStatus::OkNoChange
            }
        },
    }
}

/// Forbids one complete assignment of integer and set variables: fails when every
/// literal holds, and forbids the last open literal when all others hold.
pub struct ForbiddenAssignmentPropagator {
    /// The variables of the literals, each once, in order of first occurrence.
    pub watched: Vec<VariableId>,
    /// The literals of the forbidden assignment.
    pub forbidden: Vec<(VariableId, ForbiddenValue)>,
}

/// The statuses of the literals `lits` on the stores `ints`, `sets`.
pub open spec fn literal_statuses(
    ints: Seq<Set<int>>,
    sets: Seq<SetDomainView>,
    lits: Seq<(VariableId, ForbiddenValue)>,
) -> Seq<AssignmentStatus> {
    lits.map_values(|l: (VariableId, ForbiddenValue)| literal_status(ints, sets, l.0, l.1))
}

/// Some literal conflicts, or two literals are open: nothing can be deduced.
pub open spec fn undecidable(st: Seq<AssignmentStatus>) -> bool {
    ||| exists|i: int| 0 <= i < st.len() && #[trigger] st[i] == AssignmentStatus::Conflicts
    ||| exists|i: int, j: int|
        0 <= i < j < st.len() && #[trigger] st[i] == AssignmentStatus::Open && #[trigger] st[j] == AssignmentStatus::Open
}

impl ForbiddenAssignmentPropagator {
    /// Creates a propagator that forbids the assignment `forbidden`.
    pub fn new(forbidden: Vec<(VariableId, ForbiddenValue)>) -> (p: Self)
        ensures
            p.forbidden@ == forbidden@,
            p.watched@.no_duplicates(),
            forall|w: VariableId| p.watched@.contains(w) <==> exists|i: int| 0 <= i < forbidden@.len() && #[trigger] forbidden@[i].0 == w,
    {
        let mut watched: Vec<VariableId> = Vec::new();
        let mut i: usize = 0;
        while i < forbidden.len()
            invariant
                0 <= i <= forbidden@.len(),
                watched@.no_duplicates(),
                forall|w: VariableId| watched@.contains(w) <==> exists|k: int| 0 <= k < i && #[trigger] forbidden@[k].0 == w,
            decreases forbidden@.len() - i,
        {
            let var = forbidden[i].0;
            let mut found = false;
            let mut j: usize = 0;
            while j < watched.len()
                invariant
                    0 <= j <= watched@.len(),
                    found == exists|k: int| 0 <= k < j && watched@[k] == var,
                decreases watched@.len() - j,
            {
                if watched[j].index == var.index {
                    found = true;
                }
                j = j + 1;
            }
            if !found {
                let ghost before = watched@;
                watched.push(var);
                proof {
                    assert(!before.contains(var));
                    assert forall|a: int, b: int| 0 <= a < b < watched@.len() implies watched@[a] != watched@[b] by {
                        if b == before.len() {
                            assert(before[a] != var);
                        }
                    }
                    assert forall|w: VariableId| watched@.contains(w) <==> exists|k: int| 0 <= k < i + 1 && #[trigger] forbidden@[k].0 == w by {
                        if watched@.contains(w) && w != var {
                            let q = choose|q: int| 0 <= q < watched@.len() && watched@[q] == w;
                            assert(before[q] == w);
                            assert(before.contains(w));
                        }
                        if exists|k: int| 0 <= k < i + 1 && #[trigger] forbidden@[k].0 == w {
                            if w == var {
                                assert(watched@[before.len() as int] == w);
                            } else {
                                let k = choose|k: int| 0 <= k < i + 1 && #[trigger] forbidden@[k].0 == w;
                                assert(k < i);
                                assert(before.contains(w));
                                let q = choose|q: int| 0 <= q < before.len() && before[q] == w;
                                assert(watched@[q] == w);
                            }
                        }
                    }
                }
            } else {
                proof {
                    assert forall|w: VariableId| watched@.contains(w) <==> exists|k: int| 0 <= k < i + 1 && #[trigger] forbidden@[k].0 == w by {
                        if exists|k: int| 0 <= k < i + 1 && #[trigger] forbidden@[k].0 == w {
                            if w == var {
                                let k = choose|k: int| 0 <= k < watched@.len() && watched@[k] == var;
                                assert(watched@.contains(w));
                            } else {
                                let k = choose|k: int| 0 <= k < i + 1 && #[trigger] forbidden@[k].0 == w;
                                assert(k < i);
                            }
                        }
                    }
                }
            }
            i = i + 1;
        }
        ForbiddenAssignmentPropagator { watched, forbidden }
    }

    /// The variables whose domains this propagator reads.
    pub fn watched_variables(&self) -> (w: &Vec<VariableId>)
        ensures
            w@ == self.watched@,
    {
        &self.watched
    }

    /// Scheduling priority: propagators with a lower number run first.
    pub fn priority(&self) -> (p: u32)
        ensures
            p == 2,
    {
        2
    }

    /// Leaves the domains alone while a literal conflicts or two are open; fails when
    /// every literal holds; otherwise forbids the one open literal (see
    /// [`forbid_effect`]).
    pub fn propagate(&mut self, ints: &mut DomainStore, sets: &mut SetStore) -> (status: PropagationStatus)
        requires
            forall|i: int|
                0 <= i < old(self).forbidden@.len() ==> literal_in_range(
                    old(ints)@,
                    old(sets)@,
                    (#[trigger] old(self).forbidden@[i]).0,
                    old(self).forbidden@[i].1,
                ),
        ensures
            *final(self) == *old(self),
            ({
                let st = literal_statuses(old(ints)@, old(sets)@, old(self).forbidden@);
                if undecidable(st) {
                    final(ints)@ == old(ints)@ && final(sets)@ == old(sets)@ && status == PropagationStatus::OkNoChange
                } else if forall|i: int| 0 <= i < st.len() ==> #[trigger] st[i] == AssignmentStatus::Matches {
                    final(ints)@ == old(ints)@ && final(sets)@ == old(sets)@ && status == PropagationStatus::Failure
                } else {
                    exists|i: int|
                        0 <= i < st.len() && #[trigger] st[i] == AssignmentStatus::Open && forbid_effect(
                            old(ints)@,
                            old(sets)@,
                            final(ints)@,
                            final(sets)@,
                            old(self).forbidden@[i].0,
                            old(self).forbidden@[i].1,
                            status,
                        )
                }
            }),
    {
        let ghost st = literal_statuses(ints@, sets@, self.forbidden@);
        let n = self.forbidden.len();
        let mut matched: usize = 0;
        let mut pending: Option<usize> = None;
        let mut i: usize = 0;
        while i < n
            invariant
                0 <= i <= n,
                n == self.forbidden@.len(),
                st == literal_statuses(ints@, sets@, self.forbidden@),
                forall|k: int|
                    0 <= k < n ==> literal_in_range(ints@, sets@, (#[trigger] self.forbidden@[k]).0, self.forbidden@[k].1),
                forall|k: int| 0 <= k < i ==> #[trigger] st[k] != AssignmentStatus::Conflicts,
                pending is None ==> matched == i && forall|k: int| 0 <= k < i ==> #[trigger] st[k] == AssignmentStatus::Matches,
                pending matches Some(p) ==> p < i && matched + 1 == i && st[p as int] == AssignmentStatus::Open
                    && forall|k: int| 0 <= k < i && k != p ==> #[trigger] st[k] == AssignmentStatus::Matches,
            decreases n - i,
        {
            let status = assignment_status(ints, sets, self.forbidden[i].0, &self.forbidden[i].1);
            proof {
                assert(st[i as int] == status);
            }
            match status {
                AssignmentStatus::Matches => {
                    matched = matched + 1;
                },
                AssignmentStatus::Conflicts => {
                    return PropagationStatus::OkNoChange;
                },
                AssignmentStatus::Open => {
                    if pending.is_some() {
                        proof {
                            let p = pending->0 as int;
                            assert(st[p] == AssignmentStatus::Open && st[i as int] == AssignmentStatus::Open);
                        }
                        return PropagationStatus::OkNoChange;
                    }
                    pending = Some(i);
                },
            }
            i = i + 1;
        }
        proof {
            assert(!undecidable(st)) by {
                if exists|a: int, b: int|
                    0 <= a < b < st.len() && #[trigger] st[a] == AssignmentStatus::Open && #[trigger] st[b] == AssignmentStatus::Open {
                    let (a, b) = choose|a: int, b: int|
                        0 <= a < b < st.len() && #[trigger] st[a] == AssignmentStatus::Open && #[trigger] st[b] == AssignmentStatus::Open;
                    if pending is Some {
                        let p = pending->0 as int;
                        assert(a == p || st[a] == AssignmentStatus::Matches);
                        assert(b == p || st[b] == AssignmentStatus::Matches);
                    }
                }
            }
        }
        if matched == n {
            proof {
                if pending is Some {
                    assert(false);
                }
            }
            return PropagationStatus::Failure;
        }
        match pending {
            Some(p) => {
                proof {
                    assert(!(forall|k: int| 0 <= k < st.len() ==> #[trigger] st[k] == AssignmentStatus::Matches)) by {
                        assert(st[p as int] == AssignmentStatus::Open);
                    }
                }
                forbid_value(ints, sets, self.forbidden[p].0, &self.forbidden[p].1)
            },
            None => PropagationStatus::OkNoChange,
        }
    }
}

} // verus!
