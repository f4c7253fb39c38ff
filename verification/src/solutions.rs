//! Assignments of values to all variables of a store, and what a narrowing step keeps
//! of those that satisfy a constraint.
use vstd::prelude::*;

use crate::domain::{at_least, at_most, between, lemma_narrow_step, narrows, DomainStore, VariableId};

verus! {

/// `sigma` gives each variable of `s` a value of its domain.
pub open spec fn assignment_in(s: Seq<Set<int>>, sigma: Seq<int>) -> bool {
    &&& sigma.len() == s.len()
    &&& forall|i: int| 0 <= i < s.len() ==> #[trigger] s[i].contains(sigma[i])
}

/// Every assignment of `s0` that satisfies `c` is still an assignment of `s`.
pub open spec fn keeps(s0: Seq<Set<int>>, s: Seq<Set<int>>, c: spec_fn(Seq<int>) -> bool) -> bool {
    forall|sigma: Seq<int>| assignment_in(s0, sigma) && #[trigger] c(sigma) ==> assignment_in(s, sigma)
}

/// Some assignment of `s` satisfies `c`.
pub open spec fn has_solution(s: Seq<Set<int>>, c: spec_fn(Seq<int>) -> bool) -> bool {
    exists|sigma: Seq<int>| assignment_in(s, sigma) && #[trigger] c(sigma)
}

/// `c` reads only the positions in `w`: assignments of length `n` that agree on `w`
/// agree on `c`.
pub open spec fn reads_only(c: spec_fn(Seq<int>) -> bool, w: Set<int>, n: nat) -> bool {
    forall|sigma: Seq<int>, tau: Seq<int>|
        sigma.len() == n && tau.len() == n && (forall|i: int| 0 <= i < n && w.contains(i) ==> sigma[i] == tau[i]) ==> #[trigger] c(
            sigma,
        ) == #[trigger] c(tau)
}

/// `sigma` gives each variable of `w` a value of its domain in `s`.
pub open spec fn assignment_on(s: Seq<Set<int>>, sigma: Seq<int>, w: Set<int>) -> bool {
    &&& sigma.len() == s.len()
    &&& forall|i: int| 0 <= i < s.len() && w.contains(i) ==> #[trigger] s[i].contains(sigma[i])
}

/// Every assignment of the variables of `w` in `s0` that satisfies `c` is still one in `s`.
pub open spec fn keeps_on(s0: Seq<Set<int>>, s: Seq<Set<int>>, c: spec_fn(Seq<int>) -> bool, w: Set<int>) -> bool {
    forall|sigma: Seq<int>| assignment_on(s0, sigma, w) && #[trigger] c(sigma) ==> assignment_on(s, sigma, w)
}

/// Some assignment of the variables of `w` in `s` satisfies `c`.
pub open spec fn has_solution_on(s: Seq<Set<int>>, c: spec_fn(Seq<int>) -> bool, w: Set<int>) -> bool {
    exists|sigma: Seq<int>| assignment_on(s, sigma, w) && #[trigger] c(sigma)
}

/// No domain of `s` is empty.
pub open spec fn no_empty(s: Seq<Set<int>>) -> bool {
    forall|i: int| 0 <= i < s.len() ==> !(#[trigger] s[i]).is_empty()
}

/// An assignment of the variables of `w` completed with some value of every other domain.
pub open spec fn complete(s: Seq<Set<int>>, sigma: Seq<int>, w: Set<int>) -> Seq<int> {
    Seq::new(s.len(), |i: int| if w.contains(i) { sigma[i] } else { s[i].choose() })
}

proof fn lemma_complete(s: Seq<Set<int>>, sigma: Seq<int>, w: Set<int>, c: spec_fn(Seq<int>) -> bool)
    requires
        no_empty(s),
        assignment_on(s, sigma, w),
        reads_only(c, w, s.len()),
    ensures
        assignment_in(s, complete(s, sigma, w)),
        c(complete(s, sigma, w)) == c(sigma),
        forall|i: int| 0 <= i < s.len() && w.contains(i) ==> #[trigger] complete(s, sigma, w)[i] == sigma[i],
{
    let t = complete(s, sigma, w);
    assert forall|i: int| 0 <= i < s.len() implies #[trigger] s[i].contains(t[i]) by {
        if !w.contains(i) {
            assert(!s[i].is_empty());
        }
    }
    assert(c(t) == c(sigma));
}

/// On a store with no empty domain, a narrowing that keeps every satisfying assignment
/// of the whole store keeps every satisfying assignment of the constraint's own
/// variables `w`, whatever the other domains hold.
pub proof fn law_keeps_on_watched(s0: Seq<Set<int>>, s: Seq<Set<int>>, c: spec_fn(Seq<int>) -> bool, w: Set<int>)
    requires
        keeps(s0, s, c),
        reads_only(c, w, s0.len()),
        no_empty(s0),
    ensures
        keeps_on(s0, s, c, w),
{
    assert forall|sigma: Seq<int>| assignment_on(s0, sigma, w) && #[trigger] c(sigma) implies assignment_on(s, sigma, w) by {
        lemma_complete(s0, sigma, w, c);
        let t = complete(s0, sigma, w);
        assert(assignment_in(s, t));
        assert forall|i: int| 0 <= i < s.len() && w.contains(i) implies #[trigger] s[i].contains(sigma[i]) by {
            assert(s[i].contains(t[i]));
        }
    }
}

/// On a store with no empty domain, a constraint that reads only `w` has a solution
/// over the whole store exactly when it has one over the variables of `w`.
pub proof fn law_solution_on_watched(s: Seq<Set<int>>, c: spec_fn(Seq<int>) -> bool, w: Set<int>)
    requires
        reads_only(c, w, s.len()),
        no_empty(s),
    ensures
        has_solution(s, c) <==> has_solution_on(s, c, w),
{
    if has_solution_on(s, c, w) {
        let sigma = choose|sigma: Seq<int>| assignment_on(s, sigma, w) && #[trigger] c(sigma);
        lemma_complete(s, sigma, w, c);
        assert(c(complete(s, sigma, w)));
    }
    if has_solution(s, c) {
        let sigma = choose|sigma: Seq<int>| assignment_in(s, sigma) && #[trigger] c(sigma);
        assert(assignment_on(s, sigma, w));
    }
}

pub proof fn lemma_keeps_refl(s: Seq<Set<int>>, c: spec_fn(Seq<int>) -> bool)
    ensures
        keeps(s, s, c),
{
}

/// Replacing a domain by a subset that holds the value of every satisfying assignment
/// keeps the satisfying assignments.
pub proof fn lemma_keeps_update(
    s0: Seq<Set<int>>,
    s: Seq<Set<int>>,
    t: int,
    d: Set<int>,
    c: spec_fn(Seq<int>) -> bool,
)
    requires
        keeps(s0, s, c),
        0 <= t < s.len(),
        forall|sigma: Seq<int>| assignment_in(s, sigma) && #[trigger] c(sigma) ==> d.contains(sigma[t]),
    ensures
        keeps(s0, s.update(t, d), c),
{
    assert forall|sigma: Seq<int>| assignment_in(s0, sigma) && #[trigger] c(sigma) implies assignment_in(
        s.update(t, d),
        sigma,
    ) by {
        assert(assignment_in(s, sigma));
        assert forall|i: int| 0 <= i < s.len() implies #[trigger] s.update(t, d)[i].contains(sigma[i]) by {
            if i != t {
                assert(s[i].contains(sigma[i]));
            }
        }
    }
}

/// The lower cut at `lo` keeps the satisfying assignments when all of them give `t` a
/// value of at least `lo`.
pub proof fn lemma_keeps_below(s0: Seq<Set<int>>, s: Seq<Set<int>>, t: int, lo: int, c: spec_fn(Seq<int>) -> bool)
    requires
        keeps(s0, s, c),
        0 <= t < s.len(),
        forall|sigma: Seq<int>| assignment_in(s, sigma) && #[trigger] c(sigma) ==> lo <= sigma[t],
    ensures
        keeps(s0, s.update(t, at_least(s[t], lo)), c),
{
    assert forall|sigma: Seq<int>| assignment_in(s, sigma) && #[trigger] c(sigma) implies at_least(s[t], lo).contains(
        sigma[t],
    ) by {
        assert(s[t].contains(sigma[t]));
    }
    lemma_keeps_update(s0, s, t, at_least(s[t], lo), c);
}

/// The upper cut at `hi` keeps the satisfying assignments when all of them give `t` a
/// value of at most `hi`.
pub proof fn lemma_keeps_above(s0: Seq<Set<int>>, s: Seq<Set<int>>, t: int, hi: int, c: spec_fn(Seq<int>) -> bool)
    requires
        keeps(s0, s, c),
        0 <= t < s.len(),
        forall|sigma: Seq<int>| assignment_in(s, sigma) && #[trigger] c(sigma) ==> sigma[t] <= hi,
    ensures
        keeps(s0, s.update(t, at_most(s[t], hi)), c),
{
    assert forall|sigma: Seq<int>| assignment_in(s, sigma) && #[trigger] c(sigma) implies at_most(s[t], hi).contains(
        sigma[t],
    ) by {
        assert(s[t].contains(sigma[t]));
    }
    lemma_keeps_update(s0, s, t, at_most(s[t], hi), c);
}

/// Removing a value that no satisfying assignment gives to `t` keeps them all.
pub proof fn lemma_keeps_remove(s0: Seq<Set<int>>, s: Seq<Set<int>>, t: int, x: int, c: spec_fn(Seq<int>) -> bool)
    requires
        keeps(s0, s, c),
        0 <= t < s.len(),
        forall|sigma: Seq<int>| assignment_in(s, sigma) && #[trigger] c(sigma) ==> sigma[t] != x,
    ensures
        keeps(s0, s.update(t, s[t].remove(x)), c),
{
    assert forall|sigma: Seq<int>| assignment_in(s, sigma) && #[trigger] c(sigma) implies s[t].remove(x).contains(
        sigma[t],
    ) by {
        assert(s[t].contains(sigma[t]));
    }
    lemma_keeps_update(s0, s, t, s[t].remove(x), c);
}

/// When a kept store has an empty domain, no assignment of the original satisfies `c`.
pub proof fn lemma_keeps_empty(s0: Seq<Set<int>>, s: Seq<Set<int>>, t: int, c: spec_fn(Seq<int>) -> bool)
    requires
        keeps(s0, s, c),
        0 <= t < s.len(),
        s[t].is_empty(),
    ensures
        !has_solution(s0, c),
{
    if has_solution(s0, c) {
        let sigma = choose|sigma: Seq<int>| assignment_in(s0, sigma) && #[trigger] c(sigma);
        assert(assignment_in(s, sigma));
        assert(s[t].contains(sigma[t]));
    }
}

/// A satisfying assignment of a narrowed store gives each variable a value of its
/// domain there, and so of its original domain.
pub proof fn lemma_assignment_narrows(s0: Seq<Set<int>>, s: Seq<Set<int>>, sigma: Seq<int>)
    requires
        narrows(s0, s),
        assignment_in(s, sigma),
    ensures
        assignment_in(s0, sigma),
{
    assert forall|i: int| 0 <= i < s0.len() implies #[trigger] s0[i].contains(sigma[i]) by {
        assert(s[i].contains(sigma[i]));
        assert(s[i].subset_of(s0[i]));
    }
}

/// When a store that keeps the satisfying assignments of `w` has an empty domain in
/// `w`, there are none.
pub proof fn lemma_keeps_on_empty(s0: Seq<Set<int>>, s: Seq<Set<int>>, t: int, c: spec_fn(Seq<int>) -> bool, w: Set<int>)
    requires
        keeps_on(s0, s, c, w),
        0 <= t < s.len(),
        w.contains(t),
        s[t].is_empty(),
    ensures
        !has_solution_on(s0, c, w),
{
    if has_solution_on(s0, c, w) {
        let sigma = choose|sigma: Seq<int>| assignment_on(s0, sigma, w) && #[trigger] c(sigma);
        assert(assignment_on(s, sigma, w));
        assert(s[t].contains(sigma[t]));
    }
}

/// An assignment of `w` in a narrowed store is one in the store it narrows.
pub proof fn lemma_assignment_on_narrows(s0: Seq<Set<int>>, s: Seq<Set<int>>, sigma: Seq<int>, w: Set<int>)
    requires
        narrows(s0, s),
        assignment_on(s, sigma, w),
    ensures
        assignment_on(s0, sigma, w),
{
    assert forall|i: int| 0 <= i < s0.len() && w.contains(i) implies #[trigger] s0[i].contains(sigma[i]) by {
        assert(s[i].contains(sigma[i]));
        assert(s[i].subset_of(s0[i]));
    }
}

/// The cut to `lo..=hi` keeps the satisfying assignments when all of them give `t` a
/// value in that range.
pub proof fn lemma_keeps_between(
    s0: Seq<Set<int>>,
    s: Seq<Set<int>>,
    t: int,
    lo: int,
    hi: int,
    c: spec_fn(Seq<int>) -> bool,
)
    requires
        keeps(s0, s, c),
        0 <= t < s.len(),
        forall|sigma: Seq<int>| assignment_in(s, sigma) && #[trigger] c(sigma) ==> lo <= sigma[t] <= hi,
    ensures
        keeps(s0, s.update(t, between(s[t], lo, hi)), c),
{
    assert forall|sigma: Seq<int>| assignment_in(s, sigma) && #[trigger] c(sigma) implies between(s[t], lo, hi).contains(
        sigma[t],
    ) by {
        assert(s[t].contains(sigma[t]));
    }
    lemma_keeps_update(s0, s, t, between(s[t], lo, hi), c);
}

/// Where a propagation run stands: the store `s` narrows `s0`, keeps every solution of
/// `c`, differs from `s0` exactly when `changed`, and agrees with `s0` outside `watched`.
#[verifier::opaque]
pub open spec fn progress(
    s0: Seq<Set<int>>,
    s: Seq<Set<int>>,
    c: spec_fn(Seq<int>) -> bool,
    changed: bool,
    watched: Set<int>,
) -> bool {
    &&& narrows(s0, s)
    &&& keeps(s0, s, c)
    &&& keeps_on(s0, s, c, watched)
    &&& changed == (s != s0)
    &&& forall|k: int| 0 <= k < s0.len() && !watched.contains(k) ==> #[trigger] s[k] == s0[k]
}

pub proof fn lemma_progress_start(s0: Seq<Set<int>>, c: spec_fn(Seq<int>) -> bool, watched: Set<int>)
    ensures
        progress(s0, s0, c, false, watched),
{
    reveal(progress);
    assert(narrows(s0, s0));
}

pub proof fn lemma_progress_facts(
    s0: Seq<Set<int>>,
    s: Seq<Set<int>>,
    c: spec_fn(Seq<int>) -> bool,
    changed: bool,
    watched: Set<int>,
)
    requires
        progress(s0, s, c, changed, watched),
    ensures
        narrows(s0, s),
        keeps(s0, s, c),
        keeps_on(s0, s, c, watched),
        changed == (s != s0),
        forall|k: int| 0 <= k < s0.len() && !watched.contains(k) ==> #[trigger] s[k] == s0[k],
{
    reveal(progress);
}

/// An empty domain in a store that keeps all solutions shows there is none.
pub proof fn lemma_progress_empty(
    s0: Seq<Set<int>>,
    s: Seq<Set<int>>,
    c: spec_fn(Seq<int>) -> bool,
    changed: bool,
    watched: Set<int>,
    t: int,
)
    requires
        progress(s0, s, c, changed, watched),
        0 <= t < s.len(),
        s[t].is_empty(),
    ensures
        !has_solution(s0, c),
        watched.contains(t) ==> !has_solution_on(s0, c, watched),
{
    reveal(progress);
    lemma_keeps_empty(s0, s, t, c);
    if watched.contains(t) && has_solution_on(s0, c, watched) {
        let sigma = choose|sigma: Seq<int>| assignment_on(s0, sigma, watched) && #[trigger] c(sigma);
        assert(assignment_on(s, sigma, watched));
        assert(s[t].contains(sigma[t]));
    }
}

/// Replacing a domain by a subset that holds the value of every satisfying assignment
/// of `w` keeps those assignments.
pub proof fn lemma_keeps_on_update(
    s0: Seq<Set<int>>,
    s: Seq<Set<int>>,
    t: int,
    d: Set<int>,
    c: spec_fn(Seq<int>) -> bool,
    w: Set<int>,
)
    requires
        keeps_on(s0, s, c, w),
        0 <= t < s.len(),
        forall|sigma: Seq<int>| assignment_on(s, sigma, w) && #[trigger] c(sigma) ==> d.contains(sigma[t]),
    ensures
        keeps_on(s0, s.update(t, d), c, w),
        keeps(s0, s, c) ==> keeps(s0, s.update(t, d), c),
{
    assert forall|sigma: Seq<int>| assignment_on(s0, sigma, w) && #[trigger] c(sigma) implies assignment_on(
        s.update(t, d),
        sigma,
        w,
    ) by {
        assert(assignment_on(s, sigma, w));
        assert forall|i: int| 0 <= i < s.len() && w.contains(i) implies #[trigger] s.update(t, d)[i].contains(sigma[i]) by {
            if i != t {
                assert(s[i].contains(sigma[i]));
            }
        }
    }
    if keeps(s0, s, c) {
        assert forall|sigma: Seq<int>| assignment_in(s0, sigma) && #[trigger] c(sigma) implies assignment_in(
            s.update(t, d),
            sigma,
        ) by {
            assert(assignment_in(s, sigma));
            assert(assignment_on(s, sigma, w));
            assert forall|i: int| 0 <= i < s.len() implies #[trigger] s.update(t, d)[i].contains(sigma[i]) by {
                if i != t {
                    assert(s[i].contains(sigma[i]));
                }
            }
        }
    }
}

/// Cuts `var` to `lo..=hi`, which every solution that the store still holds respects.
pub fn restrict_step(
    store: &mut DomainStore,
    var: VariableId,
    lo: i32,
    hi: i32,
    Ghost(s0): Ghost<Seq<Set<int>>>,
    Ghost(c): Ghost<spec_fn(Seq<int>) -> bool>,
    Ghost(watched): Ghost<Set<int>>,
    changed: bool,
) -> (r: bool)
    requires
        var.index < old(store)@.len(),
        watched.contains(var.index as int),
        progress(s0, old(store)@, c, changed, watched),
        forall|sigma: Seq<int>| assignment_on(old(store)@, sigma, watched) && #[trigger] c(sigma) ==> lo <= sigma[var.index as int] <= hi,
    ensures
        final(store)@ == old(store)@.update(var.index as int, between(old(store)@[var.index as int], lo as int, hi as int)),
        progress(s0, final(store)@, c, r, watched),
        narrows(old(store)@, final(store)@),
{
    let ghost s = store@;
    let step = store.restrict(var, lo, hi);
    proof {
        reveal(progress);
        assert forall|sigma: Seq<int>| assignment_on(s, sigma, watched) && #[trigger] c(sigma) implies between(s[var.index as int], lo as int, hi as int).contains(sigma[var.index as int]) by {
            assert(s[var.index as int].contains(sigma[var.index as int]));
        }
        lemma_keeps_on_update(s0, s, var.index as int, between(s[var.index as int], lo as int, hi as int), c, watched);
        lemma_narrow_step(s0, s, store@, changed, step);
    }
    changed || step
}

/// Removes `value` from `var`, which no solution that the store still holds uses.
pub fn remove_value_step(
    store: &mut DomainStore,
    var: VariableId,
    value: i32,
    Ghost(s0): Ghost<Seq<Set<int>>>,
    Ghost(c): Ghost<spec_fn(Seq<int>) -> bool>,
    Ghost(watched): Ghost<Set<int>>,
    changed: bool,
) -> (r: bool)
    requires
        var.index < old(store)@.len(),
        watched.contains(var.index as int),
        progress(s0, old(store)@, c, changed, watched),
        forall|sigma: Seq<int>| assignment_on(old(store)@, sigma, watched) && #[trigger] c(sigma) ==> sigma[var.index as int] != value,
    ensures
        final(store)@ == old(store)@.update(var.index as int, old(store)@[var.index as int].remove(value as int)),
        progress(s0, final(store)@, c, r, watched),
        narrows(old(store)@, final(store)@),
{
    let ghost s = store@;
    let step = store.remove_value(var, value);
    proof {
        reveal(progress);
        assert forall|sigma: Seq<int>| assignment_on(s, sigma, watched) && #[trigger] c(sigma) implies s[var.index as int].remove(value as int).contains(sigma[var.index as int]) by {
            assert(s[var.index as int].contains(sigma[var.index as int]));
        }
        lemma_keeps_on_update(s0, s, var.index as int, s[var.index as int].remove(value as int), c, watched);
        lemma_narrow_step(s0, s, store@, changed, step);
    }
    changed || step
}

/// Removes the values of `var` below `lo`, which every solution that the store still
/// holds respects.
pub fn below_step(
    store: &mut DomainStore,
    var: VariableId,
    lo: i32,
    Ghost(s0): Ghost<Seq<Set<int>>>,
    Ghost(c): Ghost<spec_fn(Seq<int>) -> bool>,
    Ghost(watched): Ghost<Set<int>>,
    changed: bool,
) -> (r: bool)
    requires
        var.index < old(store)@.len(),
        watched.contains(var.index as int),
        progress(s0, old(store)@, c, changed, watched),
        forall|sigma: Seq<int>| assignment_on(old(store)@, sigma, watched) && #[trigger] c(sigma) ==> lo <= sigma[var.index as int],
    ensures
        final(store)@ == old(store)@.update(var.index as int, at_least(old(store)@[var.index as int], lo as int)),
        progress(s0, final(store)@, c, r, watched),
        narrows(old(store)@, final(store)@),
{
    let ghost s = store@;
    let step = store.remove_below(var, lo);
    proof {
        reveal(progress);
        assert forall|sigma: Seq<int>| assignment_on(s, sigma, watched) && #[trigger] c(sigma) implies at_least(s[var.index as int], lo as int).contains(sigma[var.index as int]) by {
            assert(s[var.index as int].contains(sigma[var.index as int]));
        }
        lemma_keeps_on_update(s0, s, var.index as int, at_least(s[var.index as int], lo as int), c, watched);
        lemma_narrow_step(s0, s, store@, changed, step);
    }
    changed || step
}

/// Removes the values of `var` above `hi`, which every solution that the store still
/// holds respects.
pub fn above_step(
    store: &mut DomainStore,
    var: VariableId,
    hi: i32,
    Ghost(s0): Ghost<Seq<Set<int>>>,
    Ghost(c): Ghost<spec_fn(Seq<int>) -> bool>,
    Ghost(watched): Ghost<Set<int>>,
    changed: bool,
) -> (r: bool)
    requires
        var.index < old(store)@.len(),
        watched.contains(var.index as int),
        progress(s0, old(store)@, c, changed, watched),
        forall|sigma: Seq<int>| assignment_on(old(store)@, sigma, watched) && #[trigger] c(sigma) ==> sigma[var.index as int] <= hi,
    ensures
        final(store)@ == old(store)@.update(var.index as int, at_most(old(store)@[var.index as int], hi as int)),
        progress(s0, final(store)@, c, r, watched),
        narrows(old(store)@, final(store)@),
{
    let ghost s = store@;
    let step = store.remove_above(var, hi);
    proof {
        reveal(progress);
        assert forall|sigma: Seq<int>| assignment_on(s, sigma, watched) && #[trigger] c(sigma) implies at_most(s[var.index as int], hi as int).contains(sigma[var.index as int]) by {
            assert(s[var.index as int].contains(sigma[var.index as int]));
        }
        lemma_keeps_on_update(s0, s, var.index as int, at_most(s[var.index as int], hi as int), c, watched);
        lemma_narrow_step(s0, s, store@, changed, step);
    }
    changed || step
}

/// Narrowing never drops a value that a domain in between kept: `s` narrows every
/// store on the way from `s0`.
pub proof fn lemma_progress_narrows(
    s0: Seq<Set<int>>,
    s: Seq<Set<int>>,
    c: spec_fn(Seq<int>) -> bool,
    changed: bool,
    watched: Set<int>,
)
    requires
        progress(s0, s, c, changed, watched),
    ensures
        narrows(s0, s),
        s.len() == s0.len(),
{
    reveal(progress);
}

} // verus!
