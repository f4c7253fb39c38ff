//! Learned clauses, propagated as nogoods.
use vstd::prelude::*;

use crate::domain::{DomainStore, PropagationStatus, VariableId};
use crate::nogood::{literal_variables, literals_in_range, nogood_outcome, propagate_nogood_literals, NogoodLiteral};

verus! {

/// A learned clause, with the semantics of a nogood over its literals.
pub struct ClausePropagator {
    /// The variables of the literals, each once, in order of first occurrence.
    pub watched: Vec<VariableId>,
    /// The literals.
    pub literals: Vec<NogoodLiteral>,
}

impl ClausePropagator {
    /// Creates a propagator for the clause `literals`.
    pub fn new(literals: Vec<NogoodLiteral>) -> (p: Self)
        ensures
            p.literals@ == literals@,
            p.watched@.no_duplicates(),
            forall|w: VariableId|
                p.watched@.contains(w) <==> exists|i: int| 0 <= i < literals@.len() && #[trigger] literals@[i].variable == w,
    {
        let watched = literal_variables(&literals);
        ClausePropagator { watched, literals }
    }

    /// The variables whose domains this propagator reads.
    pub fn watched_variables(&self) -> (w: &Vec<VariableId>)
        ensures
            w@ == self.watched@,
    {
        &self.watched
    }

    /// Scheduling priority: propagators with a lower number run first.
    pub fn priority(&self) -> (p: u32)
        ensures
            p == 1,
    {
        1
    }

    /// Propagates the clause as a nogood: see [`propagate_nogood_literals`].
    pub fn propagate(&mut self, store: &mut DomainStore) -> (status: PropagationStatus)
        requires
            literals_in_range(old(self).literals@, old(store)@.len()),
        ensures
            *final(self) == *old(self),
            nogood_outcome(old(store)@, old(self).literals@, final(store)@, status),
    {
        propagate_nogood_literals(&self.literals, store)
    }
}

} // verus!
