//! Set-variable domains: a lower bound `glb` of values that must be in the set, an upper
//! bound `lub` of values that may be in it, and bounds on its cardinality.
use vstd::prelude::*;

use crate::domain::VariableId;

verus! {

/// The sets of integers that a set variable may still take.
pub struct SetDomainView {
    /// Values in every candidate set.
    pub glb: Set<int>,
    /// Values in some candidate set.
    pub lub: Set<int>,
    /// Least cardinality.
    pub card_min: nat,
    /// Greatest cardinality.
    pub card_max: nat,
}

/// The set of the values of `r`.
pub open spec fn values_of(r: Seq<i32>) -> Set<int> {
    r.map_values(|v: i32| v as int).to_set()
}

/// `t` is a candidate set of the domain `d`.
pub open spec fn set_domain_contains(d: SetDomainView, t: Set<int>) -> bool {
    &&& t.finite()
    &&& d.glb.subset_of(t)
    &&& t.subset_of(d.lub)
    &&& d.card_min <= t.len() <= d.card_max
}

/// The domain admits no candidate set by its bounds: `glb` leaves `lub`, or the
/// cardinality bounds cross each other or the sizes of `glb` and `lub`.
pub open spec fn set_domain_empty(d: SetDomainView) -> bool {
    !(d.glb.subset_of(d.lub) && d.card_min <= d.card_max && d.glb.len() <= d.card_max && d.card_min <= d.lub.len())
}

/// `x` is a set that the domain `d` admits: it holds `glb`, lies within `lub`, and has
/// an admitted cardinality.
pub open spec fn set_member(d: SetDomainView, x: Set<int>) -> bool {
    &&& x.finite()
    &&& d.glb.subset_of(x)
    &&& x.subset_of(d.lub)
    &&& d.card_min <= x.len() <= d.card_max
}

/// A domain that [`set_domain_empty`] rejects admits no set.
pub proof fn law_empty_set_domain_has_no_member(d: SetDomainView, x: Set<int>)
    requires
        d.lub.finite(),
        set_domain_empty(d),
    ensures
        !set_member(d, x),
{
    if set_member(d, x) {
        vstd::set_lib::lemma_len_subset(d.glb, x);
        vstd::set_lib::lemma_len_subset(x, d.lub);
        assert(d.glb.subset_of(d.lub));
    }
}

proof fn lemma_values_of(r: Seq<i32>)
    requires
        r.no_duplicates(),
    ensures
        values_of(r).finite(),
        values_of(r).len() == r.len(),
        forall|x: int| #[trigger] values_of(r).contains(x) <==> crate::domain::seq_has(r, x),
{
    let m = r.map_values(|v: i32| v as int);
    assert(m.no_duplicates()) by {
        assert forall|i: int, j: int| 0 <= i < j < m.len() implies m[i] != m[j] by {
            assert(r[i] != r[j]);
        }
    }
    m.unique_seq_to_set();
    vstd::seq_lib::seq_to_set_is_finite(m);
    assert forall|x: int| #[trigger] values_of(r).contains(x) <==> crate::domain::seq_has(r, x) by {
        if values_of(r).contains(x) {
            let k = choose|k: int| 0 <= k < m.len() && m[k] == x;
            assert(r[k] == x);
        }
        if crate::domain::seq_has(r, x) {
            let k = choose|k: int| 0 <= k < r.len() && r[k] == x;
            assert(m[k] == x);
        }
    }
}

/// Whether `v` occurs in `r`.
pub fn vec_has(r: &Vec<i32>, v: i32) -> (found: bool)
    ensures
        found == crate::domain::seq_has(r@, v as int),
{
    let mut i: usize = 0;
    while i < r.len()
        invariant
            0 <= i <= r@.len(),
            forall|j: int| 0 <= j < i ==> r@[j] != v,
        decreases r@.len() - i,
    {
        if r[i] == v {
            return true;
        }
        i = i + 1;
    }
    false
}

/// The domain of a set variable.
pub struct SetDomain {
    glb: Vec<i32>,
    lub: Vec<i32>,
    card_min: usize,
    card_max: usize,
}

impl View for SetDomain {
    type V = SetDomainView;

    closed spec fn view(&self) -> SetDomainView {
        SetDomainView {
            glb: values_of(self.glb@),
            lub: values_of(self.lub@),
            card_min: self.card_min as nat,
            card_max: self.card_max as nat,
        }
    }
}

impl SetDomain {
    #[verifier::type_invariant]
    spec fn inv(self) -> bool {
        self.glb@.no_duplicates() && self.lub@.no_duplicates()
    }

    /// The sizes of the bounds are the lengths of their lists.
    proof fn lemma_sizes(&self)
        requires
            self.inv(),
        ensures
            self@.glb.finite(),
            self@.lub.finite(),
            self@.glb.len() == self.glb@.len(),
            self@.lub.len() == self.lub@.len(),
            forall|x: int| #[trigger] self@.glb.contains(x) <==> crate::domain::seq_has(self.glb@, x),
            forall|x: int| #[trigger] self@.lub.contains(x) <==> crate::domain::seq_has(self.lub@, x),
    {
        lemma_values_of(self.glb@);
        lemma_values_of(self.lub@);
    }

    /// All subsets of `lo..=hi`, of any cardinality.
    pub fn universe(lo: i32, hi: i32) -> (d: Self)
        ensures
            d@.glb == Set::<int>::empty(),
            d@.lub == crate::domain::interval(lo as int, hi as int),
            d@.card_min == 0,
            d@.card_max == d@.lub.len(),
            d@.lub.finite(),
    {
        let mut lub: Vec<i32> = Vec::new();
        if lo <= hi {
            let mut v: i64 = lo as i64;
            while v <= hi as i64
                invariant
                    lo <= v <= hi as int + 1,
                    lub@.len() == v - lo,
                    forall|k: int| 0 <= k < lub@.len() ==> #[trigger] lub@[k] == lo + k,
                decreases hi as int + 1 - v,
            {
                lub.push(v as i32);
                v = v + 1;
            }
        }
        let glb: Vec<i32> = Vec::new();
        proof {
            assert(lub@.no_duplicates());
            assert(glb@.no_duplicates());
            lemma_values_of(lub@);
            lemma_values_of(glb@);
            assert(values_of(glb@) =~= Set::<int>::empty());
            assert forall|x: int| #[trigger] values_of(lub@).contains(x) <==> crate::domain::interval(lo as int, hi as int).contains(x) by {
                if lo <= x <= hi {
                    assert(lub@[x - lo] == x);
                }
            }
            assert(values_of(lub@) =~= crate::domain::interval(lo as int, hi as int));
        }
        let n = lub.len();
        SetDomain { glb, lub, card_min: 0, card_max: n }
    }

    /// The same domain with its cardinality bounds replaced by `min..=max`.
    pub fn with_cardinality(self, min: usize, max: usize) -> (d: Self)
        ensures
            d@.glb == self@.glb,
            d@.lub == self@.lub,
            d@.card_min == min,
            d@.card_max == max,
    {
        proof {
            use_type_invariant(&self);
        }
        SetDomain { glb: self.glb, lub: self.lub, card_min: min, card_max: max }
    }

    /// Values that must be in the set.
    pub fn glb(&self) -> (r: &Vec<i32>)
        ensures
            values_of(r@) == self@.glb,
            r@.no_duplicates(),
            r@.len() == self@.glb.len(),
    {
        proof {
            use_type_invariant(self);
            self.lemma_sizes();
        }
        &self.glb
    }

    /// Values that may be in the set.
    pub fn lub(&self) -> (r: &Vec<i32>)
        ensures
            values_of(r@) == self@.lub,
            r@.no_duplicates(),
            r@.len() == self@.lub.len(),
    {
        proof {
            use_type_invariant(self);
            self.lemma_sizes();
        }
        &self.lub
    }

    /// Least cardinality.
    pub fn card_min(&self) -> (r: usize)
        ensures
            r == self@.card_min,
    {
        self.card_min
    }

    /// Greatest cardinality.
    pub fn card_max(&self) -> (r: usize)
        ensures
            r == self@.card_max,
    {
        self.card_max
    }

    /// Whether the bounds admit no set.
    pub fn is_empty(&self) -> (r: bool)
        ensures
            r == set_domain_empty(self@),
    {
        proof {
            use_type_invariant(self);
            self.lemma_sizes();
        }
        let mut i: usize = 0;
        let mut inside = true;
        while i < self.glb.len()
            invariant
                0 <= i <= self.glb@.len(),
                self.inv(),
                inside == forall|k: int| 0 <= k < i ==> crate::domain::seq_has(self.lub@, #[trigger] self.glb@[k] as int),
            decreases self.glb@.len() - i,
        {
            if !vec_has(&self.lub, self.glb[i]) {
                inside = false;
            }
            i = i + 1;
        }
        proof {
            self.lemma_sizes();
            if inside {
                assert forall|x: int| #[trigger] self@.glb.contains(x) implies self@.lub.contains(x) by {
                    let k = choose|k: int| 0 <= k < self.glb@.len() && self.glb@[k] == x;
                    assert(crate::domain::seq_has(self.lub@, self.glb@[k] as int));
                }
            } else {
                let k = choose|k: int| 0 <= k < self.glb@.len() && !crate::domain::seq_has(self.lub@, #[trigger] self.glb@[k] as int);
                assert(self@.glb.contains(self.glb@[k] as int));
            }
        }
        !(inside && self.card_min <= self.card_max && self.glb.len() <= self.card_max && self.card_min <= self.lub.len())
    }

    /// The value of a fixed set (`glb` equal to `lub`), listed without repetition.
    pub fn fixed_values(&self) -> (r: Option<Vec<i32>>)
        ensures
            r matches Some(v) ==> self@.glb == self@.lub && values_of(v@) == self@.glb,
            r is None ==> self@.glb != self@.lub || set_domain_empty(self@),
    {
        proof {
            use_type_invariant(self);
            self.lemma_sizes();
        }
        if self.is_empty() {
            return None;
        }
        if self.glb.len() == self.lub.len() {
            proof {
                vstd::set_lib::lemma_subset_equality(self@.glb, self@.lub);
            }
            Some(self.glb.clone())
        } else {
            None
        }
    }

    /// Values that may be in the set but are not known to be.
    pub fn undecided(&self) -> (r: Vec<i32>)
        ensures
            values_of(r@) == self@.lub.difference(self@.glb),
            r@.no_duplicates(),
    {
        proof {
            use_type_invariant(self);
            self.lemma_sizes();
        }
        let mut out: Vec<i32> = Vec::new();
        let mut i: usize = 0;
        while i < self.lub.len()
            invariant
                0 <= i <= self.lub@.len(),
                self.inv(),
                out@.no_duplicates(),
                forall|x: int| crate::domain::seq_has(out@, x) <==> (exists|k: int| 0 <= k < i && #[trigger] self.lub@[k] == x && !crate::domain::seq_has(self.glb@, x)),
            decreases self.lub@.len() - i,
        {
            let v = self.lub[i];
            if !vec_has(&self.glb, v) {
                let ghost before = out@;
                proof {
                    assert(!crate::domain::seq_has(before, v as int)) by {
                        if crate::domain::seq_has(before, v as int) {
                            let k = choose|k: int| 0 <= k < i && #[trigger] self.lub@[k] == v as int && !crate::domain::seq_has(self.glb@, v as int);
                            assert(self.lub@[k] == self.lub@[i as int]);
                        }
                    }
                }
                out.push(v);
                proof {
                    assert forall|a: int, b: int| 0 <= a < b < out@.len() implies out@[a] != out@[b] by {
                        if b == out@.len() - 1 {
                            if out@[a] == out@[b] {
                                assert(crate::domain::seq_has(before, v as int));
                            }
                        }
                    }
                    assert forall|x: int| crate::domain::seq_has(out@, x) <==> (exists|k: int| 0 <= k < i + 1 && #[trigger] self.lub@[k] == x && !crate::domain::seq_has(self.glb@, x)) by {
                        if crate::domain::seq_has(out@, x) {
                            let q = choose|q: int| 0 <= q < out@.len() && out@[q] == x;
                            if q < before.len() {
                                assert(before[q] == x);
                                assert(crate::domain::seq_has(before, x));
                            } else {
                                assert(self.lub@[i as int] == x);
                            }
                        }
                        if exists|k: int| 0 <= k < i + 1 && #[trigger] self.lub@[k] == x && !crate::domain::seq_has(self.glb@, x) {
                            let k = choose|k: int| 0 <= k < i + 1 && #[trigger] self.lub@[k] == x && !crate::domain::seq_has(self.glb@, x);
                            if k < i {
                                assert(crate::domain::seq_has(before, x));
                                let q = choose|q: int| 0 <= q < before.len() && before[q] == x;
                                assert(out@[q] == x);
                            } else {
                                assert(out@[out@.len() - 1] == x);
                            }
                        }
                    }
                }
            } else {
                proof {
                    assert forall|x: int| crate::domain::seq_has(out@, x) <==> (exists|k: int| 0 <= k < i + 1 && #[trigger] self.lub@[k] == x && !crate::domain::seq_has(self.glb@, x)) by {
                        if exists|k: int| 0 <= k < i + 1 && #[trigger] self.lub@[k] == x && !crate::domain::seq_has(self.glb@, x) {
                            let k = choose|k: int| 0 <= k < i + 1 && #[trigger] self.lub@[k] == x && !crate::domain::seq_has(self.glb@, x);
                            if k == i {
                                assert(false);
                            }
                        }
                    }
                }
            }
            i = i + 1;
        }
        proof {
            lemma_values_of(out@);
            assert forall|x: int| #[trigger] values_of(out@).contains(x) <==> self@.lub.difference(self@.glb).contains(x) by {
                if crate::domain::seq_has(self.lub@, x) && !crate::domain::seq_has(self.glb@, x) {
                    let k = choose|k: int| 0 <= k < self.lub@.len() && self.lub@[k] == x;
                    assert(self.lub@[k] == x);
                }
            }
            assert(values_of(out@) =~= self@.lub.difference(self@.glb));
        }
        out
    }
    /// Puts `value` into every candidate set; returns whether `glb` grew.
    pub fn force_in(&mut self, value: i32) -> (changed: bool)
        ensures
            final(self)@ == (SetDomainView { glb: old(self)@.glb.insert(value as int), ..old(self)@ }),
            changed == !old(self)@.glb.contains(value as int),
    {
        proof {
            use_type_invariant(&*self);
            self.lemma_sizes();
        }
        if vec_has(&self.glb, value) {
            proof {
                assert(old(self)@.glb.insert(value as int) =~= old(self)@.glb);
            }
            return false;
        }
        let mut glb = self.glb.clone();
        proof {
            assert(glb@ =~= self.glb@);
        }
        glb.push(value);
        proof {
            assert forall|a: int, b: int| 0 <= a < b < glb@.len() implies glb@[a] != glb@[b] by {
                if b == glb@.len() - 1 && glb@[a] == glb@[b] {
                    assert(self.glb@[a] == value);
                }
            }
            lemma_values_of(glb@);
            assert forall|x: int| #[trigger] values_of(glb@).contains(x) <==> old(self)@.glb.insert(value as int).contains(x) by {
                if crate::domain::seq_has(glb@, x) && x != value {
                    let k = choose|k: int| 0 <= k < glb@.len() && glb@[k] == x;
                    assert(self.glb@[k] == x);
                }
                if crate::domain::seq_has(self.glb@, x) {
                    let k = choose|k: int| 0 <= k < self.glb@.len() && self.glb@[k] == x;
                    assert(glb@[k] == x);
                }
                if x == value {
                    assert(glb@[glb@.len() - 1] == x);
                }
            }
            assert(values_of(glb@) =~= old(self)@.glb.insert(value as int));
        }
        self.glb = glb;
        true
    }

    /// Removes `value` from every candidate set; returns whether `lub` shrank.
    pub fn force_out(&mut self, value: i32) -> (changed: bool)
        ensures
            final(self)@ == (SetDomainView { lub: old(self)@.lub.remove(value as int), ..old(self)@ }),
            changed == old(self)@.lub.contains(value as int),
    {
        proof {
            use_type_invariant(&*self);
            self.lemma_sizes();
        }
        if !vec_has(&self.lub, value) {
            proof {
                assert(old(self)@.lub.remove(value as int) =~= old(self)@.lub);
            }
            return false;
        }
        let mut lub: Vec<i32> = Vec::new();
        let mut i: usize = 0;
        while i < self.lub.len()
            invariant
                0 <= i <= self.lub@.len(),
                self.lub@.no_duplicates(),
                lub@.no_duplicates(),
                forall|x: int| crate::domain::seq_has(lub@, x) <==> (x != value && exists|k: int| 0 <= k < i && #[trigger] self.lub@[k] == x),
            decreases self.lub@.len() - i,
        {
            let v = self.lub[i];
            if v != value {
                let ghost before = lub@;
                lub.push(v);
                proof {
                    assert forall|a: int, b: int| 0 <= a < b < lub@.len() implies lub@[a] != lub@[b] by {
                        if b == lub@.len() - 1 && lub@[a] == lub@[b] {
                            assert(crate::domain::seq_has(before, v as int));
                            let k = choose|k: int| 0 <= k < i && #[trigger] self.lub@[k] == v as int;
                            assert(self.lub@[k] == self.lub@[i as int]);
                        }
                    }
                    assert forall|x: int| crate::domain::seq_has(lub@, x) <==> (x != value && exists|k: int| 0 <= k < i + 1 && #[trigger] self.lub@[k] == x) by {
                        if crate::domain::seq_has(lub@, x) {
                            let q = choose|q: int| 0 <= q < lub@.len() && lub@[q] == x;
                            if q < before.len() {
                                assert(before[q] == x);
                                assert(crate::domain::seq_has(before, x));
                            } else {
                                assert(self.lub@[i as int] == x);
                            }
                        }
                        if x != value && exists|k: int| 0 <= k < i + 1 && #[trigger] self.lub@[k] == x {
                            let k = choose|k: int| 0 <= k < i + 1 && #[trigger] self.lub@[k] == x;
                            if k < i {
                                assert(crate::domain::seq_has(before, x));
                                let q = choose|q: int| 0 <= q < before.len() && before[q] == x;
                                assert(lub@[q] == x);
                            } else {
                                assert(lub@[lub@.len() - 1] == x);
                            }
                        }
                    }
                }
            } else {
                proof {
                    assert forall|x: int| crate::domain::seq_has(lub@, x) <==> (x != value && exists|k: int| 0 <= k < i + 1 && #[trigger] self.lub@[k] == x) by {
                        if x != value && exists|k: int| 0 <= k < i + 1 && #[trigger] self.lub@[k] == x {
                            let k = choose|k: int| 0 <= k < i + 1 && #[trigger] self.lub@[k] == x;
                            if k == i {
                                assert(false);
                            }
                        }
                    }
                }
            }
            i = i + 1;
        }
        proof {
            lemma_values_of(lub@);
            assert forall|x: int| #[trigger] values_of(lub@).contains(x) <==> old(self)@.lub.remove(value as int).contains(x) by {
                if crate::domain::seq_has(self.lub@, x) && x != value {
                    let k = choose|k: int| 0 <= k < self.lub@.len() && self.lub@[k] == x;
                    assert(self.lub@[k] == x);
                }
            }
            assert(values_of(lub@) =~= old(self)@.lub.remove(value as int));
        }
        self.lub = lub;
        true
    }

    /// Intersects the cardinality bounds with `min..=max`; returns whether they changed.
    pub fn tighten_cardinality(&mut self, min: usize, max: usize) -> (changed: bool)
        ensures
            final(self)@ == (SetDomainView {
                card_min: if min > old(self)@.card_min { min as nat } else { old(self)@.card_min },
                card_max: if max < old(self)@.card_max { max as nat } else { old(self)@.card_max },
                ..old(self)@
            }),
            changed == (min > old(self)@.card_min || max < old(self)@.card_max),
    {
        proof {
            use_type_invariant(&*self);
        }
        let mut changed = false;
        if min > self.card_min {
            self.card_min = min;
            changed = true;
        }
        if max < self.card_max {
            self.card_max = max;
            changed = true;
        }
        changed
    }
}

/// The domains of all set variables of a problem, indexed by [`VariableId`].
pub struct SetStore {
    domains: Vec<SetDomain>,
}

impl View for SetStore {
    type V = Seq<SetDomainView>;

    closed spec fn view(&self) -> Seq<SetDomainView> {
        self.domains@.map_values(|d: SetDomain| d@)
    }
}

/// Every bound of every domain of `s` is finite.
pub open spec fn set_store_finite(s: Seq<SetDomainView>) -> bool {
    forall|i: int| 0 <= i < s.len() ==> (#[trigger] s[i]).glb.finite() && s[i].lub.finite()
}

impl SetStore {
    /// A store with no set variable.
    pub fn new() -> (s: Self)
        ensures
            s@ == Seq::<SetDomainView>::empty(),
    {
        let s = SetStore { domains: Vec::new() };
        proof {
            assert(s@ =~= Seq::<SetDomainView>::empty());
        }
        s
    }

    /// Number of set variables.
    pub fn len(&self) -> (n: usize)
        ensures
            n == self@.len(),
    {
        self.domains.len()
    }

    /// Adds a set variable with domain `domain` and returns its identifier.
    pub fn new_variable(&mut self, domain: SetDomain) -> (id: VariableId)
        ensures
            id.index == old(self)@.len(),
            final(self)@ == old(self)@.push(domain@),
    {
        let id = VariableId { index: self.domains.len() };
        let ghost d = domain@;
        self.domains.push(domain);
        proof {
            assert(self@ =~= old(self)@.push(d));
        }
        id
    }

    /// The domain of `var`.
    pub fn domain(&self, var: VariableId) -> (d: &SetDomain)
        requires
            var.index < self@.len(),
        ensures
            d@ == self@[var.index as int],
    {
        &self.domains[var.index]
    }

    /// The bounds of every domain are finite.
    pub fn assert_finite(&self)
        ensures
            set_store_finite(self@),
    {
        proof {
            assert forall|i: int| 0 <= i < self@.len() implies (#[trigger] self@[i]).glb.finite() && self@[i].lub.finite() by {
                let d = self.domains@[i];
                vstd::seq_lib::seq_to_set_is_finite(d.glb@.map_values(|v: i32| v as int));
                vstd::seq_lib::seq_to_set_is_finite(d.lub@.map_values(|v: i32| v as int));
            }
        }
    }

    /// Puts `value` into every candidate set of `var`; returns whether its `glb` grew.
    pub fn force_in(&mut self, var: VariableId, value: i32) -> (changed: bool)
        requires
            var.index < old(self)@.len(),
        ensures
            final(self)@ == old(self)@.update(
                var.index as int,
                SetDomainView { glb: old(self)@[var.index as int].glb.insert(value as int), ..old(self)@[var.index as int] },
            ),
            changed == !old(self)@[var.index as int].glb.contains(value as int),
    {
        let changed = self.domains[var.index].force_in(value);
        proof {
            assert(self@ =~= old(self)@.update(
                var.index as int,
                SetDomainView { glb: old(self)@[var.index as int].glb.insert(value as int), ..old(self)@[var.index as int] },
            ));
        }
        changed
    }

    /// Removes `value` from every candidate set of `var`; returns whether its `lub` shrank.
    pub fn force_out(&mut self, var: VariableId, value: i32) -> (changed: bool)
        requires
            var.index < old(self)@.len(),
        ensures
            final(self)@ == old(self)@.update(
                var.index as int,
                SetDomainView { lub: old(self)@[var.index as int].lub.remove(value as int), ..old(self)@[var.index as int] },
            ),
            changed == old(self)@[var.index as int].lub.contains(value as int),
    {
        let changed = self.domains[var.index].force_out(value);
        proof {
            assert(self@ =~= old(self)@.update(
                var.index as int,
                SetDomainView { lub: old(self)@[var.index as int].lub.remove(value as int), ..old(self)@[var.index as int] },
            ));
        }
        changed
    }

    /// Intersects the cardinality bounds of `var` with `min..=max`; returns whether they
    /// changed.
    pub fn tighten_cardinality(&mut self, var: VariableId, min: usize, max: usize) -> (changed: bool)
        requires
            var.index < old(self)@.len(),
        ensures
            final(self)@ == old(self)@.update(
                var.index as int,
                SetDomainView {
                    card_min: if min > old(self)@[var.index as int].card_min {
                        min as nat
                    } else {
                        old(self)@[var.index as int].card_min
                    },
                    card_max: if max < old(self)@[var.index as int].card_max {
                        max as nat
                    } else {
                        old(self)@[var.index as int].card_max
                    },
                    ..old(self)@[var.index as int]
                },
            ),
            changed == (min > old(self)@[var.index as int].card_min || max < old(self)@[var.index as int].card_max),
    {
        let ghost before = self@;
        let changed = self.domains[var.index].tighten_cardinality(min, max);
        proof {
            let d = before[var.index as int];
            assert(self@ =~= before.update(
                var.index as int,
                SetDomainView {
                    card_min: if min > d.card_min { min as nat } else { d.card_min },
                    card_max: if max < d.card_max { max as nat } else { d.card_max },
                    ..d
                },
            ));
        }
        changed
    }
}

/// `e` has every set domain of `d` narrowed: lower bounds grown, upper bounds and
/// cardinality ranges shrunk.
pub open spec fn set_narrows(d: Seq<SetDomainView>, e: Seq<SetDomainView>) -> bool {
    &&& e.len() == d.len()
    &&& forall|i: int|
        0 <= i < d.len() ==> (#[trigger] d[i]).glb.subset_of(e[i].glb) && e[i].lub.subset_of(d[i].lub)
            && d[i].card_min <= e[i].card_min && e[i].card_max <= d[i].card_max
}

/// Narrowing twice is narrowing, and a running "changed" flag stays exact.
pub proof fn lemma_set_narrow_step(
    s0: Seq<SetDomainView>,
    cur: Seq<SetDomainView>,
    next: Seq<SetDomainView>,
    flag: bool,
    step: bool,
)
    requires
        set_narrows(s0, cur),
        set_narrows(cur, next),
        flag == (cur != s0),
        step == (next != cur),
    ensures
        set_narrows(s0, next),
        (flag || step) == (next != s0),
{
    assert forall|i: int| 0 <= i < s0.len() implies (#[trigger] s0[i]).glb.subset_of(next[i].glb) && next[i].lub.subset_of(
        s0[i].lub,
    ) && s0[i].card_min <= next[i].card_min && next[i].card_max <= s0[i].card_max by {
        assert(s0[i].glb.subset_of(cur[i].glb));
        assert(cur[i].glb.subset_of(next[i].glb));
        assert(next[i].lub.subset_of(cur[i].lub));
        assert(cur[i].lub.subset_of(s0[i].lub));
    }
    if step {
        assert(!(next =~= cur));
        let k = choose|k: int| 0 <= k < next.len() && next[k] != cur[k];
        assert(next[k] != s0[k]) by {
            if next[k] == s0[k] {
                assert(s0[k].glb.subset_of(cur[k].glb) && cur[k].glb.subset_of(next[k].glb));
                assert(cur[k].glb =~= next[k].glb);
                assert(cur[k].lub =~= next[k].lub);
                assert(cur[k] == next[k]);
            }
        }
    } else {
        assert(next == cur);
    }
}

/// A store is narrowed by itself.
pub proof fn lemma_set_narrows_refl(s: Seq<SetDomainView>)
    ensures
        set_narrows(s, s),
{
}

/// Replacing one domain by a narrower one narrows the store, and changes it exactly when
/// the domain changes.
pub proof fn lemma_set_update_narrows(s: Seq<SetDomainView>, i: int, d: SetDomainView)
    requires
        0 <= i < s.len(),
        s[i].glb.subset_of(d.glb),
        d.lub.subset_of(s[i].lub),
        s[i].card_min <= d.card_min,
        d.card_max <= s[i].card_max,
    ensures
        set_narrows(s, s.update(i, d)),
        (s.update(i, d) != s) == (d != s[i]),
{
    if d == s[i] {
        assert(s.update(i, d) =~= s);
    } else {
        assert(s.update(i, d)[i] != s[i]);
    }
}

/// Puts every value of `vals` into every candidate set of `var`; returns whether its
/// `glb` grew.
pub fn force_all_in(sets: &mut SetStore, var: VariableId, vals: &Vec<i32>) -> (changed: bool)
    requires
        var.index < old(sets)@.len(),
    ensures
        final(sets)@ == old(sets)@.update(
            var.index as int,
            SetDomainView { glb: old(sets)@[var.index as int].glb.union(values_of(vals@)), ..old(sets)@[var.index as int] },
        ),
        changed == (final(sets)@ != old(sets)@),
        set_narrows(old(sets)@, final(sets)@),
{
    let ghost s0 = sets@;
    let ghost x = var.index as int;
    let mut changed = false;
    let mut k: usize = 0;
    proof {
        assert(vals@.take(0).map_values(|v: i32| v as int) =~= Seq::<int>::empty());
        assert(s0[x].glb.union(values_of(vals@.take(0))) =~= s0[x].glb);
        assert(s0.update(x, SetDomainView { glb: s0[x].glb.union(values_of(vals@.take(0))), ..s0[x] }) =~= s0);
    }
    while k < vals.len()
        invariant
            0 <= k <= vals@.len(),
            x == var.index,
            x < s0.len(),
            sets@ == s0.update(x, SetDomainView { glb: s0[x].glb.union(values_of(vals@.take(k as int))), ..s0[x] }),
            changed == (sets@ != s0),
            set_narrows(s0, sets@),
        decreases vals@.len() - k,
    {
        let ghost cur = sets@;
        let step = sets.force_in(var, vals[k]);
        proof {
            assert(vals@.take(k + 1).map_values(|v: i32| v as int) =~= vals@.take(k as int).map_values(|v: i32| v as int).push(vals@[k as int] as int));
            lemma_to_set_push(vals@.take(k as int).map_values(|v: i32| v as int), vals@[k as int] as int);
            assert(values_of(vals@.take(k + 1)) =~= values_of(vals@.take(k as int)).insert(vals@[k as int] as int));
            assert(s0[x].glb.union(values_of(vals@.take(k + 1))) =~= cur[x].glb.insert(vals@[k as int] as int));
            assert(sets@ == cur.update(x, sets@[x]));
            assert(sets@ =~= s0.update(x, SetDomainView { glb: s0[x].glb.union(values_of(vals@.take(k + 1))), ..s0[x] }));
            lemma_set_update_narrows(cur, x, sets@[x]);
            if !step {
                assert(cur[x].glb.insert(vals@[k as int] as int) =~= cur[x].glb);
                assert(sets@[x] == cur[x]);
            } else {
                assert(sets@[x].glb.contains(vals@[k as int] as int));
            }
            lemma_set_narrow_step(s0, cur, sets@, changed, step);
        }
        changed = changed || step;
        k = k + 1;
    }
    proof {
        assert(vals@.take(k as int) =~= vals@);
    }
    changed
}

/// Removes from every candidate set of `var` the values of `vals` that are not in
/// `keep`; returns whether its `lub` shrank.
pub fn force_out_missing(sets: &mut SetStore, var: VariableId, vals: &Vec<i32>, keep: &Vec<i32>) -> (changed: bool)
    requires
        var.index < old(sets)@.len(),
    ensures
        final(sets)@ == old(sets)@.update(
            var.index as int,
            SetDomainView {
                lub: old(sets)@[var.index as int].lub.difference(values_of(vals@).difference(values_of(keep@))),
                ..old(sets)@[var.index as int]
            },
        ),
        changed == (final(sets)@ != old(sets)@),
        set_narrows(old(sets)@, final(sets)@),
{
    let ghost s0 = sets@;
    let ghost x = var.index as int;
    let ghost kv = values_of(keep@);
    let mut changed = false;
    let mut k: usize = 0;
    proof {
        assert(vals@.take(0).map_values(|v: i32| v as int) =~= Seq::<int>::empty());
        assert(s0[x].lub.difference(values_of(vals@.take(0)).difference(kv)) =~= s0[x].lub);
        assert(s0.update(x, SetDomainView { lub: s0[x].lub.difference(values_of(vals@.take(0)).difference(kv)), ..s0[x] }) =~= s0);
        lemma_set_narrows_refl(s0);
    }
    while k < vals.len()
        invariant
            0 <= k <= vals@.len(),
            x == var.index,
            x < s0.len(),
            kv == values_of(keep@),
            sets@ == s0.update(x, SetDomainView { lub: s0[x].lub.difference(values_of(vals@.take(k as int)).difference(kv)), ..s0[x] }),
            changed == (sets@ != s0),
            set_narrows(s0, sets@),
        decreases vals@.len() - k,
    {
        let ghost cur = sets@;
        let v = vals[k];
        let present = vec_has(keep, v);
        proof {
            lemma_values_of_has(keep@, v as int);
            assert(vals@.take(k + 1).map_values(|u: i32| u as int) =~= vals@.take(k as int).map_values(|u: i32| u as int).push(v as int));
            lemma_to_set_push(vals@.take(k as int).map_values(|u: i32| u as int), v as int);
            assert(values_of(vals@.take(k + 1)) =~= values_of(vals@.take(k as int)).insert(v as int));
        }
        if !present {
            let step = sets.force_out(var, v);
            proof {
                assert(s0[x].lub.difference(values_of(vals@.take(k + 1)).difference(kv)) =~= cur[x].lub.remove(v as int));
                assert(sets@ =~= s0.update(x, SetDomainView { lub: s0[x].lub.difference(values_of(vals@.take(k + 1)).difference(kv)), ..s0[x] }));
                assert(sets@ == cur.update(x, sets@[x]));
                lemma_set_update_narrows(cur, x, sets@[x]);
                if !step {
                    assert(cur[x].lub.remove(v as int) =~= cur[x].lub);
                    assert(sets@[x] == cur[x]);
                } else {
                    assert(!sets@[x].lub.contains(v as int));
                }
                lemma_set_narrow_step(s0, cur, sets@, changed, step);
            }
            changed = changed || step;
        } else {
            proof {
                assert(s0[x].lub.difference(values_of(vals@.take(k + 1)).difference(kv)) =~= cur[x].lub);
                assert(sets@ =~= s0.update(x, SetDomainView { lub: s0[x].lub.difference(values_of(vals@.take(k + 1)).difference(kv)), ..s0[x] }));
            }
        }
        k = k + 1;
    }
    proof {
        assert(vals@.take(k as int) =~= vals@);
    }
    changed
}

/// The set of a sequence with one more element.
pub proof fn lemma_to_set_push(r: Seq<int>, a: int)
    ensures
        r.push(a).to_set() == r.to_set().insert(a),
{
    assert forall|y: int| r.push(a).to_set().contains(y) <==> r.to_set().insert(a).contains(y) by {
        if r.push(a).contains(y) && y != a {
            let k = choose|k: int| 0 <= k < r.push(a).len() && r.push(a)[k] == y;
            assert(r[k] == y);
        }
        if r.contains(y) {
            let k = choose|k: int| 0 <= k < r.len() && r[k] == y;
            assert(r.push(a)[k] == y);
        }
        if y == a {
            assert(r.push(a)[r.len() as int] == a);
        }
    }
    assert(r.push(a).to_set() =~= r.to_set().insert(a));
}

/// Membership in the values of a list is occurrence in the list.
pub proof fn lemma_values_of_has(r: Seq<i32>, x: int)
    ensures
        values_of(r).contains(x) == crate::domain::seq_has(r, x),
{
    let m = r.map_values(|v: i32| v as int);
    if values_of(r).contains(x) {
        let k = choose|k: int| 0 <= k < m.len() && m[k] == x;
        assert(r[k] == x);
    }
    if crate::domain::seq_has(r, x) {
        let k = choose|k: int| 0 <= k < r.len() && r[k] == x;
        assert(m[k] == x);
    }
}

/// `s` with `x` added to the lower bound of the domain at `k`.
pub open spec fn add_glb(s: Seq<SetDomainView>, k: int, x: Set<int>) -> Seq<SetDomainView> {
    s.update(k, SetDomainView { glb: s[k].glb.union(x), ..s[k] })
}

/// `s` with `y` removed from the upper bound of the domain at `k`.
pub open spec fn cut_lub(s: Seq<SetDomainView>, k: int, y: Set<int>) -> Seq<SetDomainView> {
    s.update(k, SetDomainView { lub: s[k].lub.difference(y), ..s[k] })
}

/// `s` with the cardinality range of the domain at `k` intersected with `mn..=mx`.
pub open spec fn tighten(s: Seq<SetDomainView>, k: int, mn: nat, mx: nat) -> Seq<SetDomainView> {
    s.update(
        k,
        SetDomainView {
            card_min: if mn > s[k].card_min { mn } else { s[k].card_min },
            card_max: if mx < s[k].card_max { mx } else { s[k].card_max },
            ..s[k]
        },
    )
}

/// Number of values of `vals` that are not in `excl`.
pub fn count_outside(vals: &Vec<i32>, excl: &Vec<i32>) -> (n: usize)
    requires
        vals@.no_duplicates(),
    ensures
        n == values_of(vals@).difference(values_of(excl@)).len(),
{
    let ghost e = values_of(excl@);
    let mut n: usize = 0;
    let mut k: usize = 0;
    proof {
        assert(vals@.take(0).map_values(|v: i32| v as int) =~= Seq::<int>::empty());
        assert(values_of(vals@.take(0)).difference(e) =~= Set::<int>::empty());
    }
    while k < vals.len()
        invariant
            0 <= k <= vals@.len(),
            vals@.no_duplicates(),
            e == values_of(excl@),
            n <= k,
            values_of(vals@.take(k as int)).finite(),
            n == values_of(vals@.take(k as int)).difference(e).len(),
        decreases vals@.len() - k,
    {
        let v = vals[k];
        let inside = vec_has(excl, v);
        proof {
            lemma_values_of_has(excl@, v as int);
            assert(vals@.take(k + 1).map_values(|u: i32| u as int) =~= vals@.take(k as int).map_values(|u: i32| u as int).push(v as int));
            lemma_to_set_push(vals@.take(k as int).map_values(|u: i32| u as int), v as int);
            assert(values_of(vals@.take(k + 1)) == values_of(vals@.take(k as int)).insert(v as int));
            assert(!values_of(vals@.take(k as int)).contains(v as int)) by {
                lemma_values_of_has(vals@.take(k as int), v as int);
                if crate::domain::seq_has(vals@.take(k as int), v as int) {
                    let q = choose|q: int| 0 <= q < k && vals@.take(k as int)[q] == v;
                    assert(vals@[q] == vals@[k as int]);
                }
            }
        }
        if !inside {
            proof {
                assert(values_of(vals@.take(k + 1)).difference(e) =~= values_of(vals@.take(k as int)).difference(e).insert(v as int));
            }
            n = n + 1;
        } else {
            proof {
                assert(values_of(vals@.take(k + 1)).difference(e) =~= values_of(vals@.take(k as int)).difference(e));
            }
        }
        k = k + 1;
    }
    proof {
        assert(vals@.take(k as int) =~= vals@);
    }
    n
}

/// Adding nothing to a lower bound leaves the domains as they were.
pub proof fn lemma_add_glb_empty(s: Seq<SetDomainView>, k: int)
    requires
        0 <= k < s.len(),
    ensures
        add_glb(s, k, Set::empty()) == s,
{
    assert(s[k].glb.union(Set::empty()) =~= s[k].glb);
    let d = SetDomainView { glb: s[k].glb, ..s[k] };
    assert(d == s[k]);
    assert(add_glb(s, k, Set::empty()) =~= s);
}

/// Forcing one more value into a lower bound that already took `a` is adding `a` and
/// the value at once.
pub proof fn lemma_add_glb_insert(s: Seq<SetDomainView>, k: int, a: Set<int>, v: int)
    requires
        0 <= k < s.len(),
    ensures
        add_glb(s, k, a).update(k, SetDomainView { glb: add_glb(s, k, a)[k].glb.insert(v), ..add_glb(s, k, a)[k] })
            == add_glb(s, k, a.insert(v)),
{
    assert(s[k].glb.union(a).insert(v) =~= s[k].glb.union(a.insert(v)));
    assert(add_glb(s, k, a).update(k, SetDomainView { glb: add_glb(s, k, a)[k].glb.insert(v), ..add_glb(s, k, a)[k] })
        =~= add_glb(s, k, a.insert(v)));
}

/// Puts into every candidate set of `var` the values of `vals` that are not in `excl`;
/// returns whether its `glb` grew.
pub fn force_in_outside(sets: &mut SetStore, var: VariableId, vals: &Vec<i32>, excl: &Vec<i32>) -> (changed: bool)
    requires
        var.index < old(sets)@.len(),
    ensures
        final(sets)@ == add_glb(old(sets)@, var.index as int, values_of(vals@).difference(values_of(excl@))),
        changed == (final(sets)@ != old(sets)@),
        set_narrows(old(sets)@, final(sets)@),
{
    let ghost s0 = sets@;
    let ghost x = var.index as int;
    let ghost e = values_of(excl@);
    let mut changed = false;
    let mut k: usize = 0;
    proof {
        assert(vals@.take(0).map_values(|v: i32| v as int) =~= Seq::<int>::empty());
        assert(values_of(vals@.take(0)).difference(e) =~= Set::<int>::empty());
        lemma_add_glb_empty(s0, x);
        lemma_set_narrows_refl(s0);
    }
    while k < vals.len()
        invariant
            0 <= k <= vals@.len(),
            x == var.index,
            x < s0.len(),
            e == values_of(excl@),
            sets@ == add_glb(s0, x, values_of(vals@.take(k as int)).difference(e)),
            changed == (sets@ != s0),
            set_narrows(s0, sets@),
        decreases vals@.len() - k,
    {
        let ghost cur = sets@;
        let v = vals[k];
        let inside = vec_has(excl, v);
        proof {
            lemma_values_of_has(excl@, v as int);
            assert(vals@.take(k + 1).map_values(|u: i32| u as int) =~= vals@.take(k as int).map_values(|u: i32| u as int).push(v as int));
            lemma_to_set_push(vals@.take(k as int).map_values(|u: i32| u as int), v as int);
            assert(values_of(vals@.take(k + 1)) == values_of(vals@.take(k as int)).insert(v as int));
        }
        if !inside {
            let step = sets.force_in(var, v);
            proof {
                let a = values_of(vals@.take(k as int)).difference(e);
                assert(values_of(vals@.take(k + 1)).difference(e) =~= a.insert(v as int));
                lemma_add_glb_insert(s0, x, a, v as int);
                assert(sets@ == cur.update(x, sets@[x]));
                lemma_set_update_narrows(cur, x, sets@[x]);
                if !step {
                    assert(cur[x].glb.insert(v as int) =~= cur[x].glb);
                    assert(sets@[x] == cur[x]);
                } else {
                    assert(sets@[x].glb.contains(v as int));
                }
                lemma_set_narrow_step(s0, cur, sets@, changed, step);
            }
            changed = changed || step;
        } else {
            proof {
                assert(values_of(vals@.take(k + 1)).difference(e) =~= values_of(vals@.take(k as int)).difference(e));
            }
        }
        k = k + 1;
    }
    proof {
        assert(vals@.take(k as int) =~= vals@);
    }
    changed
}

} // verus!
