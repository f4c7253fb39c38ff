//! Learned nogoods: conjunctions of variable assignments that may not all hold.
use vstd::prelude::*;

use crate::domain::{DomainStore, PropagationStatus, VariableId};
use crate::forbidden::{undecidable, AssignmentStatus};
use crate::int_mod::is_fixed;

verus! {

/// One assignment `variable = value` of a nogood.
#[derive(Clone, Copy, Debug, PartialEq, Eq, Structural)]
pub struct NogoodLiteral {
    /// The variable.
    pub variable: VariableId,
    /// Its value in the forbidden conjunction.
    pub value: i32,
}

/// Status of a literal: it holds when its variable is fixed to its value, conflicts
/// when the variable is fixed to another value, and is open otherwise.
pub open spec fn nogood_status(s: Seq<Set<int>>, lit: NogoodLiteral) -> AssignmentStatus {
    let d = s[lit.variable.index as int];
    if d == set![lit.value as int] {
        AssignmentStatus::Matches
    } else if is_fixed(d) {
        AssignmentStatus::Conflicts
    } else {
        AssignmentStatus::Open
    }
}

/// The statuses of `lits` on the store `s`.
pub open spec fn nogood_statuses(s: Seq<Set<int>>, lits: Seq<NogoodLiteral>) -> Seq<AssignmentStatus> {
    lits.map_values(|l: NogoodLiteral| nogood_status(s, l))
}

/// Every literal names a variable of a store of `n` domains.
pub open spec fn literals_in_range(lits: Seq<NogoodLiteral>, n: nat) -> bool {
    forall|i: int| 0 <= i < lits.len() ==> (#[trigger] lits[i]).variable.index < n
}

/// Store and status after the open literal `lit` is forbidden: its value leaves its
/// variable's domain, failing when that empties the domain, and nothing changes when
/// the value was not there.
pub open spec fn nogood_prune(s: Seq<Set<int>>, lit: NogoodLiteral, t: Seq<Set<int>>, status: PropagationStatus) -> bool {
    let x = lit.variable.index as int;
    if s[x].contains(lit.value as int) {
        &&& t == s.update(x, s[x].remove(lit.value as int))
        &&& status == (if s[x].remove(lit.value as int).is_empty() {
            PropagationStatus::Failure
        } else {
            PropagationStatus::OkChanged
        })
    } else {
        t == s && status == PropagationStatus::OkNoChange
    }
}

/// Store and status after propagating the nogood `lits`: nothing changes while a literal
/// conflicts or two are open, all literals holding fail, and otherwise the one open
/// literal is forbidden (see [`nogood_prune`]).
pub open spec fn nogood_outcome(s: Seq<Set<int>>, lits: Seq<NogoodLiteral>, t: Seq<Set<int>>, status: PropagationStatus) -> bool {
    let st = nogood_statuses(s, lits);
    if undecidable(st) {
        t == s && status == PropagationStatus::OkNoChange
    } else if forall|i: int| 0 <= i < st.len() ==> #[trigger] st[i] == AssignmentStatus::Matches {
        t == s && status == PropagationStatus::Failure
    } else {
        exists|i: int| 0 <= i < st.len() && #[trigger] st[i] == AssignmentStatus::Open && nogood_prune(s, lits[i], t, status)
    }
}

/// Not every literal of `lits` holds under `sigma`.
pub open spec fn nogood_holds(lits: Seq<NogoodLiteral>) -> spec_fn(Seq<int>) -> bool {
    |sigma: Seq<int>| exists|i: int| 0 <= i < lits.len() && sigma[lits[i].variable.index as int] != lits[i].value
}

/// `sigma` gives each variable of a literal of `lits` a value of its domain in `s`.
pub open spec fn literals_assigned(s: Seq<Set<int>>, lits: Seq<NogoodLiteral>, sigma: Seq<int>) -> bool {
    &&& sigma.len() == s.len()
    &&& forall|i: int| 0 <= i < lits.len() ==> #[trigger] s[lits[i].variable.index as int].contains(sigma[lits[i].variable.index as int])
}

/// Propagating a nogood keeps every assignment of its variables that satisfies it, and
/// does not fail while one remains, whatever the other domains hold.
pub proof fn law_nogood_keeps_solutions(
    s: Seq<Set<int>>,
    lits: Seq<NogoodLiteral>,
    t: Seq<Set<int>>,
    status: PropagationStatus,
    sigma: Seq<int>,
)
    requires
        literals_in_range(lits, s.len()),
        nogood_outcome(s, lits, t, status),
        literals_assigned(s, lits, sigma),
        (nogood_holds(lits))(sigma),
    ensures
        literals_assigned(t, lits, sigma),
        status != PropagationStatus::Failure,
{
    let st = nogood_statuses(s, lits);
    let k = choose|k: int| 0 <= k < lits.len() && sigma[lits[k].variable.index as int] != lits[k].value;
    assert(s[lits[k].variable.index as int].contains(sigma[lits[k].variable.index as int]));
    assert(t.len() == s.len());
    if undecidable(st) {
    } else if forall|i: int| 0 <= i < st.len() ==> #[trigger] st[i] == AssignmentStatus::Matches {
        assert(st[k] == AssignmentStatus::Matches);
        assert(set![lits[k].value as int].contains(sigma[lits[k].variable.index as int]));
    } else {
        let i = choose|i: int| 0 <= i < st.len() && #[trigger] st[i] == AssignmentStatus::Open && nogood_prune(s, lits[i], t, status);
        if k != i {
            assert(st[k] != AssignmentStatus::Conflicts);
            if st[k] == AssignmentStatus::Open {
                if k < i {
                    assert(st[k] == AssignmentStatus::Open && st[i] == AssignmentStatus::Open);
                } else {
                    assert(st[i] == AssignmentStatus::Open && st[k] == AssignmentStatus::Open);
                }
            }
            assert(st[k] == AssignmentStatus::Matches);
            assert(set![lits[k].value as int].contains(sigma[lits[k].variable.index as int]));
        }
        let x = lits[i].variable.index as int;
        if s[x].contains(lits[i].value as int) {
            assert(s[x].remove(lits[i].value as int).contains(sigma[x]));
            assert forall|j: int| 0 <= j < lits.len() implies #[trigger] t[lits[j].variable.index as int].contains(
                sigma[lits[j].variable.index as int],
            ) by {
                assert(s[lits[j].variable.index as int].contains(sigma[lits[j].variable.index as int]));
            }
        }
    }
}

/// The status of one literal.
fn literal_status(store: &DomainStore, lit: NogoodLiteral) -> (st: AssignmentStatus)
    requires
        lit.variable.index < store@.len(),
    ensures
        st == nogood_status(store@, lit),
{
    match store.fixed_value(lit.variable) {
        Some(value) => {
            if value == lit.value {
                AssignmentStatus::Matches
            } else {
                proof {
                    assert(set![value as int].contains(value as int));
                }
                AssignmentStatus::Conflicts
            }
        },
        None => {
            proof {
                assert(!is_fixed(store@[lit.variable.index as int]));
            }
            AssignmentStatus::Open
        },
    }
}

/// Propagates the nogood `literals`: leaves the store alone while a literal conflicts or
/// two are open, fails when all hold, and otherwise forbids the one open literal (see
/// [`nogood_prune`]).
pub fn propagate_nogood_literals(literals: &Vec<NogoodLiteral>, store: &mut DomainStore) -> (status: PropagationStatus)
    requires
        literals_in_range(literals@, old(store)@.len()),
    ensures
        nogood_outcome(old(store)@, literals@, final(store)@, status),
{
    let ghost st = nogood_statuses(store@, literals@);
    let n = literals.len();
    let mut matched: usize = 0;
    let mut pending: Option<usize> = None;
    let mut i: usize = 0;
    while i < n
        invariant
            0 <= i <= n,
            n == literals@.len(),
            st == nogood_statuses(store@, literals@),
            literals_in_range(literals@, store@.len()),
            forall|k: int| 0 <= k < i ==> #[trigger] st[k] != AssignmentStatus::Conflicts,
            pending is None ==> matched == i && forall|k: int| 0 <= k < i ==> #[trigger] st[k] == AssignmentStatus::Matches,
            pending matches Some(p) ==> p < i && matched + 1 == i && st[p as int] == AssignmentStatus::Open
                && forall|k: int| 0 <= k < i && k != p ==> #[trigger] st[k] == AssignmentStatus::Matches,
        decreases n - i,
    {
        let status = literal_status(store, literals[i]);
        proof {
            assert(st[i as int] == status);
        }
        match status {
            AssignmentStatus::Matches => {
                matched = matched + 1;
            },
            AssignmentStatus::Conflicts => {
                return PropagationStatus::OkNoChange;
            },
            AssignmentStatus::Open => {
                if pending.is_some() {
                    proof {
                        let p = pending->0 as int;
                        assert(st[p] == AssignmentStatus::Open && st[i as int] == AssignmentStatus::Open);
                    }
                    return PropagationStatus::OkNoChange;
                }
                pending = Some(i);
            },
        }
        i = i + 1;
    }
    proof {
        assert(!undecidable(st)) by {
            if exists|a: int, b: int|
                0 <= a < b < st.len() && #[trigger] st[a] == AssignmentStatus::Open && #[trigger] st[b] == AssignmentStatus::Open {
                let (a, b) = choose|a: int, b: int|
                    0 <= a < b < st.len() && #[trigger] st[a] == AssignmentStatus::Open && #[trigger] st[b] == AssignmentStatus::Open;
                if pending is Some {
                    let p = pending->0 as int;
                    assert(a == p || st[a] == AssignmentStatus::Matches);
                    assert(b == p || st[b] == AssignmentStatus::Matches);
                }
            }
        }
    }
    if matched == n {
        proof {
            if pending is Some {
                assert(false);
            }
        }
        return PropagationStatus::Failure;
    }
    match pending {
        Some(p) => {
            let lit = literals[p];
            proof {
                assert(st[p as int] == AssignmentStatus::Open);
                assert(!(forall|k: int| 0 <= k < st.len() ==> #[trigger] st[k] == AssignmentStatus::Matches));
            }
            if store.remove_value(lit.variable, lit.value) {
                if store.is_empty(lit.variable) {
                    return PropagationStatus::Failure;
                }
                return PropagationStatus::OkChanged;
            }
            PropagationStatus::OkNoChange
        },
        None => PropagationStatus::OkNoChange,
    }
}

/// The variables of `literals`, each once, in order of first occurrence.
pub fn literal_variables(literals: &Vec<NogoodLiteral>) -> (watched: Vec<VariableId>)
    ensures
        watched@.no_duplicates(),
        forall|w: VariableId|
            watched@.contains(w) <==> exists|i: int| 0 <= i < literals@.len() && #[trigger] literals@[i].variable == w,
{
    let mut watched: Vec<VariableId> = Vec::new();
    let mut i: usize = 0;
    while i < literals.len()
        invariant
            0 <= i <= literals@.len(),
            watched@.no_duplicates(),
            forall|w: VariableId| watched@.contains(w) <==> exists|k: int| 0 <= k < i && #[trigger] literals@[k].variable == w,
        decreases literals@.len() - i,
    {
        let var = literals[i].variable;
        let mut found = false;
        let mut j: usize = 0;
        while j < watched.len()
            invariant
                0 <= j <= watched@.len(),
                found == exists|k: int| 0 <= k < j && watched@[k] == var,
            decreases watched@.len() - j,
        {
            if watched[j].index == var.index {
                found = true;
            }
            j = j + 1;
        }
        if !found {
            let ghost before = watched@;
            watched.push(var);
            proof {
                assert(!before.contains(var));
                assert forall|a: int, b: int| 0 <= a < b < watched@.len() implies watched@[a] != watched@[b] by {
                    if b == before.len() {
                        assert(before[a] != var);
                    }
                }
                assert forall|w: VariableId| watched@.contains(w) <==> exists|k: int| 0 <= k < i + 1 && #[trigger] literals@[k].variable == w by {
                    if watched@.contains(w) && w != var {
                        let q = choose|q: int| 0 <= q < watched@.len() && watched@[q] == w;
                        assert(before[q] == w);
                        assert(before.contains(w));
                    }
                    if exists|k: int| 0 <= k < i + 1 && #[trigger] literals@[k].variable == w {
                        if w == var {
                            assert(watched@[before.len() as int] == w);
                        } else {
                            let k = choose|k: int| 0 <= k < i + 1 && #[trigger] literals@[k].variable == w;
                            assert(k < i);
                            assert(before.contains(w));
                            let q = choose|q: int| 0 <= q < before.len() && before[q] == w;
                            assert(watched@[q] == w);
                        }
                    }
                }
            }
        } else {
            proof {
                assert forall|w: VariableId| watched@.contains(w) <==> exists|k: int| 0 <= k < i + 1 && #[trigger] literals@[k].variable == w by {
                    if exists|k: int| 0 <= k < i + 1 && #[trigger] literals@[k].variable == w {
                        if w == var {
                            let k = choose|k: int| 0 <= k < watched@.len() && watched@[k] == var;
                            assert(watched@.contains(w));
                        } else {
                            let k = choose|k: int| 0 <= k < i + 1 && #[trigger] literals@[k].variable == w;
                            assert(k < i);
                        }
                    }
                }
            }
        }
        i = i + 1;
    }
    watched
}

/// Forbids the conjunction of the literals of a learned nogood.
pub struct NogoodPropagator {
    /// The variables of the literals, each once, in order of first occurrence.
    pub watched: Vec<VariableId>,
    /// The literals.
    pub literals: Vec<NogoodLiteral>,
}

impl NogoodPropagator {
    /// Creates a propagator for the nogood `literals`.
    pub fn new(literals: Vec<NogoodLiteral>) -> (p: Self)
        ensures
            p.literals@ == literals@,
            p.watched@.no_duplicates(),
            forall|w: VariableId|
                p.watched@.contains(w) <==> exists|i: int| 0 <= i < literals@.len() && #[trigger] literals@[i].variable == w,
    {
        let watched = literal_variables(&literals);
        NogoodPropagator { watched, literals }
    }

    /// The variables whose domains this propagator reads.
    pub fn watched_variables(&self) -> (w: &Vec<VariableId>)
        ensures
            w@ == self.watched@,
    {
        &self.watched
    }

    /// Scheduling priority: propagators with a lower number run first.
    pub fn priority(&self) -> (p: u32)
        ensures
            p == 1,
    {
        1
    }

    /// Propagates the nogood: see [`propagate_nogood_literals`].
    pub fn propagate(&mut self, store: &mut DomainStore) -> (status: PropagationStatus)
        requires
            literals_in_range(old(self).literals@, old(store)@.len()),
        ensures
            *final(self) == *old(self),
            nogood_outcome(old(store)@, old(self).literals@, final(store)@, status),
    {
        propagate_nogood_literals(&self.literals, store)
    }
}

} // verus!
