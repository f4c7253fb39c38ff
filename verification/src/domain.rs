//! Integer domains and the store that propagators read and narrow.
use vstd::prelude::*;

verus! {

/// Identifies a variable of a [`DomainStore`] by its position.
#[derive(Clone, Copy, Debug, PartialEq, Eq, Structural, Hash)]
pub struct VariableId {
    /// Position of the variable's domain in the store.
    pub index: usize,
}

impl VariableId {
    /// Key by which variables are ordered.
    pub fn key(&self) -> (k: usize)
        ensures
            k == self.index,
    {
        self.index
    }
}

/// Outcome of one propagation run.
#[derive(Clone, Copy, Debug, PartialEq, Eq, Structural)]
pub enum PropagationStatus {
    /// No domain was narrowed.
    OkNoChange,
    /// Some domain was narrowed and none is empty.
    OkChanged,
    /// The constraint cannot be satisfied by the current domains.
    Failure,
}

impl PropagationStatus {
    /// Whether this is [`PropagationStatus::Failure`].
    pub fn is_failure(&self) -> (r: bool)
        ensures
            r == (*self == PropagationStatus::Failure),
    {
        match self {
            PropagationStatus::Failure => true,
            _ => false,
        }
    }
}

/// The integers `lo..=hi`.
pub open spec fn interval(lo: int, hi: int) -> Set<int> {
    Set::new(|v: int| lo <= v <= hi)
}

/// The union of the closed intervals of `rs`.
pub open spec fn span_set(rs: Seq<(i32, i32)>) -> Set<int>
    decreases rs.len(),
{
    if rs.len() == 0 {
        Set::empty()
    } else {
        span_set(rs.drop_last()).union(interval(rs.last().0 as int, rs.last().1 as int))
    }
}

/// Every interval is non-empty and each one lies strictly above the previous one.
pub open spec fn ranges_wf(rs: Seq<(i32, i32)>) -> bool {
    &&& forall|k: int| 0 <= k < rs.len() ==> (#[trigger] rs[k]).0 <= rs[k].1
    &&& forall|j: int, k: int| 0 <= j < k < rs.len() ==> (#[trigger] rs[j]).1 < (#[trigger] rs[k]).0
}

proof fn lemma_span_push(rs: Seq<(i32, i32)>, r: (i32, i32))
    ensures
        span_set(rs.push(r)) == span_set(rs).union(interval(r.0 as int, r.1 as int)),
{
    assert(rs.push(r).drop_last() =~= rs);
}

proof fn lemma_span_member(rs: Seq<(i32, i32)>, k: int, v: int)
    requires
        0 <= k < rs.len(),
        rs[k].0 <= v <= rs[k].1,
    ensures
        span_set(rs).contains(v),
    decreases rs.len(),
{
    if k < rs.len() - 1 {
        lemma_span_member(rs.drop_last(), k, v);
    }
}

proof fn lemma_span_bounds(rs: Seq<(i32, i32)>, v: int)
    requires
        ranges_wf(rs),
        span_set(rs).contains(v),
    ensures
        rs.len() > 0,
        rs[0].0 <= v <= rs.last().1,
    decreases rs.len(),
{
    let d = rs.drop_last();
    if d.len() > 0 && span_set(d).contains(v) {
        assert(ranges_wf(d)) by {
            assert forall|j: int, k: int| 0 <= j < k < d.len() implies (#[trigger] d[j]).1 < (#[trigger] d[k]).0 by {
                assert(d[j] == rs[j] && d[k] == rs[k]);
            }
        }
        lemma_span_bounds(d, v);
        assert(d[d.len() - 1] == rs[rs.len() - 2]);
        assert(rs[rs.len() - 2].1 < rs[rs.len() - 1].0);
        assert(rs[rs.len() - 1].0 <= rs[rs.len() - 1].1);
    } else {
        assert(span_set(d).contains(v) == false) by {
            if d.len() == 0 {
                assert(span_set(d) == Set::<int>::empty());
            }
        }
        if rs.len() > 1 {
            assert(rs[0].1 < rs[rs.len() - 1].0);
        }
    }
}

/// A span set is empty exactly when it has no interval.
proof fn lemma_span_empty(rs: Seq<(i32, i32)>)
    requires
        ranges_wf(rs),
    ensures
        (rs.len() == 0) <==> span_set(rs).is_empty(),
        rs.len() == 0 ==> span_set(rs) == Set::<int>::empty(),
{
    if rs.len() > 0 {
        lemma_span_member(rs, 0, rs[0].0 as int);
    } else {
        assert(span_set(rs) =~= Set::<int>::empty());
    }
}

/// The members of `s` that are at least `b`.
pub open spec fn at_least(s: Set<int>, b: int) -> Set<int> {
    s.filter(|v: int| v >= b)
}

/// The members of `s` that are at most `b`.
pub open spec fn at_most(s: Set<int>, b: int) -> Set<int> {
    s.filter(|v: int| v <= b)
}

/// `x` occurs in `r`.
pub open spec fn seq_has(r: Seq<i32>, x: int) -> bool {
    exists|k: int| 0 <= k < r.len() && r[k] == x
}

/// The members of `s` within `lo..=hi`.
pub open spec fn between(s: Set<int>, lo: int, hi: int) -> Set<int> {
    s.filter(|v: int| lo <= v && v <= hi)
}

/// Every member of `s` fits in an `i32`.
pub open spec fn in_i32_range(s: Set<int>) -> bool {
    forall|v: int| #[trigger] s.contains(v) ==> i32::MIN <= v <= i32::MAX
}

proof fn lemma_span_in_range(rs: Seq<(i32, i32)>)
    ensures
        in_i32_range(span_set(rs)),
    decreases rs.len(),
{
    if rs.len() > 0 {
        lemma_span_in_range(rs.drop_last());
    }
}

/// A finite set of integers, held as sorted disjoint closed intervals.
pub struct IntDomain {
    ranges: Vec<(i32, i32)>,
}

impl View for IntDomain {
    type V = Set<int>;

    closed spec fn view(&self) -> Set<int> {
        span_set(self.ranges@)
    }
}

/// Smallest member of a set of integers.
pub open spec fn is_least(s: Set<int>, m: int) -> bool {
    s.contains(m) && forall|v: int| #[trigger] s.contains(v) ==> m <= v
}

/// Largest member of a set of integers.
pub open spec fn is_greatest(s: Set<int>, m: int) -> bool {
    s.contains(m) && forall|v: int| #[trigger] s.contains(v) ==> v <= m
}

/// The smallest member of `s`, where it has one.
pub open spec fn least(s: Set<int>) -> int {
    choose|m: int| is_least(s, m)
}

/// The largest member of `s`, where it has one.
pub open spec fn greatest(s: Set<int>) -> int {
    choose|m: int| is_greatest(s, m)
}

/// The smallest member is unique.
pub proof fn lemma_least_is(s: Set<int>, m: int)
    requires
        is_least(s, m),
    ensures
        least(s) == m,
{
    let c = least(s);
    assert(is_least(s, c));
    assert(c <= m && m <= c);
}

/// The largest member is unique.
pub proof fn lemma_greatest_is(s: Set<int>, m: int)
    requires
        is_greatest(s, m),
    ensures
        greatest(s) == m,
{
    let c = greatest(s);
    assert(is_greatest(s, c));
    assert(c <= m && m <= c);
}

/// A member of a finite set lies between its least and greatest members.
pub proof fn lemma_member_in_bounds(d: Set<int>, v: int)
    requires
        d.finite(),
        d.contains(v),
    ensures
        least(d) <= v <= greatest(d),
{
    lemma_least_exists(d);
    lemma_greatest_exists(d);
}

/// A finite non-empty set of integers has a smallest member.
pub proof fn lemma_least_exists(s: Set<int>)
    requires
        s.finite(),
        !s.is_empty(),
    ensures
        is_least(s, least(s)),
    decreases s.len(),
{
    let x = s.choose();
    assert(s.contains(x));
    let t = s.remove(x);
    if t.is_empty() {
        assert forall|v: int| #[trigger] s.contains(v) implies x <= v by {
            if v != x {
                assert(t.contains(v));
            }
        }
        assert(is_least(s, x));
    } else {
        lemma_least_exists(t);
        let m = least(t);
        if x < m {
            assert forall|v: int| #[trigger] s.contains(v) implies x <= v by {
                if v != x {
                    assert(t.contains(v));
                }
            }
            assert(is_least(s, x));
        } else {
            assert forall|v: int| #[trigger] s.contains(v) implies m <= v by {
                if v != x {
                    assert(t.contains(v));
                }
            }
            assert(is_least(s, m));
        }
    }
}

/// A finite non-empty set of integers has a largest member.
pub proof fn lemma_greatest_exists(s: Set<int>)
    requires
        s.finite(),
        !s.is_empty(),
    ensures
        is_greatest(s, greatest(s)),
    decreases s.len(),
{
    let x = s.choose();
    assert(s.contains(x));
    let t = s.remove(x);
    if t.is_empty() {
        assert forall|v: int| #[trigger] s.contains(v) implies v <= x by {
            if v != x {
                assert(t.contains(v));
            }
        }
        assert(is_greatest(s, x));
    } else {
        lemma_greatest_exists(t);
        let m = greatest(t);
        if x > m {
            assert forall|v: int| #[trigger] s.contains(v) implies v <= x by {
                if v != x {
                    assert(t.contains(v));
                }
            }
            assert(is_greatest(s, x));
        } else {
            assert forall|v: int| #[trigger] s.contains(v) implies v <= m by {
                if v != x {
                    assert(t.contains(v));
                }
            }
            assert(is_greatest(s, m));
        }
    }
}

proof fn lemma_span_finite(rs: Seq<(i32, i32)>)
    ensures
        span_set(rs).finite(),
    decreases rs.len(),
{
    if rs.len() > 0 {
        lemma_span_finite(rs.drop_last());
        let lo = rs.last().0 as int;
        let hi = rs.last().1 as int;
        if lo <= hi + 1 {
            vstd::set_lib::lemma_int_range(lo, hi + 1);
            assert(interval(lo, hi) =~= vstd::set_lib::set_int_range(lo, hi + 1));
        } else {
            assert(interval(lo, hi) =~= Set::<int>::empty());
        }
    }
}

impl IntDomain {
    #[verifier::type_invariant]
    spec fn inv(self) -> bool {
        ranges_wf(self.ranges@)
    }

    /// The domain `lo..=hi`; empty when `lo > hi`.
    pub fn new(lo: i32, hi: i32) -> (d: Self)
        ensures
            d@ == interval(lo as int, hi as int),
    {
        let mut ranges: Vec<(i32, i32)> = Vec::new();
        if lo <= hi {
            ranges.push((lo, hi));
            proof {
                lemma_span_push(Seq::empty(), (lo, hi));
                assert(Seq::<(i32, i32)>::empty().push((lo, hi)) == ranges@);
                assert(span_set(Seq::<(i32, i32)>::empty()) =~= Set::<int>::empty());
                assert(span_set(ranges@) =~= interval(lo as int, hi as int));
            }
        } else {
            proof {
                assert(span_set(ranges@) =~= interval(lo as int, hi as int));
            }
        }
        IntDomain { ranges }
    }

    /// The domain holding `value` alone.
    pub fn fix(value: i32) -> (d: Self)
        ensures
            d@ == set![value as int],
    {
        let d = IntDomain::new(value, value);
        proof {
            assert(d@ =~= set![value as int]);
        }
        d
    }

    /// The domain with no value.
    pub fn empty() -> (d: Self)
        ensures
            d@ == Set::<int>::empty(),
    {
        let d = IntDomain::new(1, 0);
        proof {
            assert(d@ =~= Set::<int>::empty());
        }
        d
    }

    /// Whether no value is left.
    pub fn is_empty(&self) -> (r: bool)
        ensures
            r == self@.is_empty(),
            r ==> self@ == Set::<int>::empty(),
    {
        proof {
            use_type_invariant(self);
            lemma_span_empty(self.ranges@);
        }
        self.ranges.len() == 0
    }

    /// The smallest value, or `None` when the domain is empty.
    pub fn min(&self) -> (r: Option<i32>)
        ensures
            r is None <==> self@.is_empty(),
            r matches Some(m) ==> is_least(self@, m as int),
    {
        proof {
            use_type_invariant(self);
            lemma_span_empty(self.ranges@);
        }
        if self.ranges.len() == 0 {
            None
        } else {
            let m = self.ranges[0].0;
            proof {
                lemma_span_member(self.ranges@, 0, m as int);
                assert forall|v: int| #[trigger] self@.contains(v) implies m <= v by {
                    lemma_span_bounds(self.ranges@, v);
                }
            }
            Some(m)
        }
    }

    /// The largest value, or `None` when the domain is empty.
    pub fn max(&self) -> (r: Option<i32>)
        ensures
            r is None <==> self@.is_empty(),
            r matches Some(m) ==> is_greatest(self@, m as int),
    {
        proof {
            use_type_invariant(self);
            lemma_span_empty(self.ranges@);
        }
        if self.ranges.len() == 0 {
            None
        } else {
            let last = self.ranges.len() - 1;
            let m = self.ranges[last].1;
            proof {
                lemma_span_member(self.ranges@, last as int, m as int);
                assert forall|v: int| #[trigger] self@.contains(v) implies v <= m by {
                    lemma_span_bounds(self.ranges@, v);
                }
            }
            Some(m)
        }
    }

    /// Whether `value` is in the domain.
    pub fn contains(&self, value: i32) -> (r: bool)
        ensures
            r == self@.contains(value as int),
    {
        let mut i: usize = 0;
        while i < self.ranges.len()
            invariant
                0 <= i <= self.ranges@.len(),
                !span_set(self.ranges@.take(i as int)).contains(value as int),
            decreases self.ranges@.len() - i,
        {
            let (lo, hi) = self.ranges[i];
            if lo <= value && value <= hi {
                proof {
                    lemma_span_member(self.ranges@, i as int, value as int);
                }
                return true;
            }
            proof {
                lemma_span_push(self.ranges@.take(i as int), (lo, hi));
                assert(self.ranges@.take(i as int).push((lo, hi)) =~= self.ranges@.take(i + 1));
            }
            i = i + 1;
        }
        proof {
            assert(self.ranges@.take(i as int) =~= self.ranges@);
        }
        false
    }

    /// The values that are at least `bound`.
    pub fn above(&self, bound: i32) -> (d: Self)
        ensures
            d@ == at_least(self@, bound as int),
    {
        proof {
            use_type_invariant(self);
        }
        let ghost rs = self.ranges@;
        let mut out: Vec<(i32, i32)> = Vec::new();
        let mut i: usize = 0;
        proof {
            assert(span_set(out@) =~= at_least(span_set(rs.take(0)), bound as int)) by {
                assert(rs.take(0) =~= Seq::<(i32, i32)>::empty());
            }
        }
        while i < self.ranges.len()
            invariant
                rs == self.ranges@,
                ranges_wf(rs),
                0 <= i <= rs.len(),
                ranges_wf(out@),
                span_set(out@) == at_least(span_set(rs.take(i as int)), bound as int),
                forall|j: int| 0 <= j < out@.len() && i < rs.len() ==> (#[trigger] out@[j]).1 < rs[i as int].0,
            decreases rs.len() - i,
        {
            let (lo, hi) = self.ranges[i];
            let ghost prev = out@;
            proof {
                lemma_span_push(rs.take(i as int), (lo, hi));
                assert(rs.take(i as int).push((lo, hi)) =~= rs.take(i + 1));
            }
            if hi >= bound {
                let nlo = if lo >= bound { lo } else { bound };
                out.push((nlo, hi));
                proof {
                    lemma_span_push(prev, (nlo, hi));
                    assert(interval(lo as int, hi as int).filter(|v: int| v >= bound) =~= interval(nlo as int, hi as int));
                }
            } else {
                proof {
                    assert(interval(lo as int, hi as int).filter(|v: int| v >= bound) =~= Set::<int>::empty());
                }
            }
            proof {
                assert(at_least(span_set(rs.take(i + 1)), bound as int) =~= at_least(span_set(rs.take(i as int)), bound as int).union(
                    interval(lo as int, hi as int).filter(|v: int| v >= bound)));
                if i + 1 < rs.len() {
                    assert(rs[i as int].1 < rs[i + 1].0);
                }
            }
            i = i + 1;
        }
        proof {
            assert(rs.take(i as int) =~= rs);
        }
        IntDomain { ranges: out }
    }

    /// The values that are at most `bound`.
    pub fn below(&self, bound: i32) -> (d: Self)
        ensures
            d@ == at_most(self@, bound as int),
    {
        proof {
            use_type_invariant(self);
        }
        let ghost rs = self.ranges@;
        let mut out: Vec<(i32, i32)> = Vec::new();
        let mut i: usize = 0;
        proof {
            assert(span_set(out@) =~= at_most(span_set(rs.take(0)), bound as int)) by {
                assert(rs.take(0) =~= Seq::<(i32, i32)>::empty());
            }
        }
        while i < self.ranges.len()
            invariant
                rs == self.ranges@,
                ranges_wf(rs),
                0 <= i <= rs.len(),
                ranges_wf(out@),
                span_set(out@) == at_most(span_set(rs.take(i as int)), bound as int),
                forall|j: int| 0 <= j < out@.len() && i < rs.len() ==> (#[trigger] out@[j]).1 < rs[i as int].0,
            decreases rs.len() - i,
        {
            let (lo, hi) = self.ranges[i];
            let ghost prev = out@;
            proof {
                lemma_span_push(rs.take(i as int), (lo, hi));
                assert(rs.take(i as int).push((lo, hi)) =~= rs.take(i + 1));
            }
            if lo <= bound {
                let nhi = if hi <= bound { hi } else { bound };
                out.push((lo, nhi));
                proof {
                    lemma_span_push(prev, (lo, nhi));
                    assert(interval(lo as int, hi as int).filter(|v: int| v <= bound) =~= interval(lo as int, nhi as int));
                }
            } else {
                proof {
                    assert(interval(lo as int, hi as int).filter(|v: int| v <= bound) =~= Set::<int>::empty());
                }
            }
            proof {
                assert(at_most(span_set(rs.take(i + 1)), bound as int) =~= at_most(span_set(rs.take(i as int)), bound as int).union(
                    interval(lo as int, hi as int).filter(|v: int| v <= bound)));
                if i + 1 < rs.len() {
                    assert(rs[i as int].1 < rs[i + 1].0);
                }
            }
            i = i + 1;
        }
        proof {
            assert(rs.take(i as int) =~= rs);
        }
        IntDomain { ranges: out }
    }

    /// The domain without `value`.
    pub fn without(&self, value: i32) -> (d: Self)
        ensures
            d@ == self@.remove(value as int),
    {
        proof {
            use_type_invariant(self);
        }
        let ghost rs = self.ranges@;
        let mut out: Vec<(i32, i32)> = Vec::new();
        let mut i: usize = 0;
        proof {
            assert(span_set(out@) =~= span_set(rs.take(0)).remove(value as int)) by {
                assert(rs.take(0) =~= Seq::<(i32, i32)>::empty());
            }
        }
        while i < self.ranges.len()
            invariant
                rs == self.ranges@,
                ranges_wf(rs),
                0 <= i <= rs.len(),
                ranges_wf(out@),
                span_set(out@) == span_set(rs.take(i as int)).remove(value as int),
                forall|j: int| 0 <= j < out@.len() && i < rs.len() ==> (#[trigger] out@[j]).1 < rs[i as int].0,
            decreases rs.len() - i,
        {
            let (lo, hi) = self.ranges[i];
            let ghost prev = out@;
            proof {
                lemma_span_push(rs.take(i as int), (lo, hi));
                assert(rs.take(i as int).push((lo, hi)) =~= rs.take(i + 1));
            }
            if lo <= value && value <= hi {
                if lo < value {
                    out.push((lo, value - 1));
                    proof {
                        lemma_span_push(prev, (lo, (value - 1) as i32));
                    }
                }
                let ghost mid = out@;
                if value < hi {
                    out.push((value + 1, hi));
                    proof {
                        lemma_span_push(mid, ((value + 1) as i32, hi));
                    }
                }
                proof {
                    assert(span_set(out@) =~= span_set(prev).union(interval(lo as int, hi as int).remove(value as int)));
                }
            } else {
                out.push((lo, hi));
                proof {
                    lemma_span_push(prev, (lo, hi));
                    assert(interval(lo as int, hi as int).remove(value as int) =~= interval(lo as int, hi as int));
                }
            }
            proof {
                assert(span_set(rs.take(i + 1)).remove(value as int) =~= span_set(rs.take(i as int)).remove(value as int).union(
                    interval(lo as int, hi as int).remove(value as int)));
                if i + 1 < rs.len() {
                    assert(rs[i as int].1 < rs[i + 1].0);
                }
            }
            i = i + 1;
        }
        proof {
            assert(rs.take(i as int) =~= rs);
        }
        IntDomain { ranges: out }
    }

    /// Every value of the domain, in increasing order.
    pub fn values(&self) -> (r: Vec<i32>)
        ensures
            forall|j: int, k: int| 0 <= j < k < r@.len() ==> r@[j] < r@[k],
            forall|k: int| 0 <= k < r@.len() ==> self@.contains(#[trigger] r@[k] as int),
            forall|x: int| #[trigger] self@.contains(x) ==> seq_has(r@, x),
    {
        proof {
            use_type_invariant(self);
        }
        let ghost rs = self.ranges@;
        let mut r: Vec<i32> = Vec::new();
        let mut i: usize = 0;
        proof {
            assert(rs.take(0) =~= Seq::<(i32, i32)>::empty());
        }
        while i < self.ranges.len()
            invariant
                rs == self.ranges@,
                ranges_wf(rs),
                0 <= i <= rs.len(),
                forall|j: int, k: int| 0 <= j < k < r@.len() ==> r@[j] < r@[k],
                forall|k: int| 0 <= k < r@.len() && i < rs.len() ==> (#[trigger] r@[k]) < rs[i as int].0,
                forall|x: int| seq_has(r@, x) <==> #[trigger] span_set(rs.take(i as int)).contains(x),
            decreases rs.len() - i,
        {
            let (lo, hi) = self.ranges[i];
            proof {
                lemma_span_push(rs.take(i as int), (lo, hi));
                assert(rs.take(i as int).push((lo, hi)) =~= rs.take(i + 1));
            }
            let ghost base = span_set(rs.take(i as int));
            let mut v: i64 = lo as i64;
            while v <= hi as i64
                invariant
                    rs == self.ranges@,
                    ranges_wf(rs),
                    i < rs.len(),
                    rs[i as int] == (lo, hi),
                    lo <= v <= hi + 1,
                    forall|j: int, k: int| 0 <= j < k < r@.len() ==> r@[j] < r@[k],
                    forall|k: int| 0 <= k < r@.len() ==> (#[trigger] r@[k]) < v,
                    forall|x: int| seq_has(r@, x) <==> (#[trigger] base.contains(x) || (lo <= x < v)),
                decreases hi + 1 - v,
            {
                let ghost prev = r@;
                r.push(v as i32);
                proof {
                    assert forall|x: int| seq_has(r@, x) <==> (#[trigger] base.contains(x) || (lo <= x < v + 1)) by {
                        if x == v {
                            assert(r@[r@.len() - 1] == x);
                        }
                        if seq_has(prev, x) {
                            let k = choose|k: int| 0 <= k < prev.len() && prev[k] == x;
                            assert(r@[k] == x);
                        }
                        if seq_has(r@, x) && x != v {
                            let k = choose|k: int| 0 <= k < r@.len() && r@[k] == x;
                            assert(k < prev.len());
                            assert(prev[k] == x);
                            assert(seq_has(prev, x));
                            assert(base.contains(x) || (lo <= x < v));
                        }
                    }
                }
                v = v + 1;
            }
            proof {
                assert(span_set(rs.take(i + 1)) == base.union(interval(lo as int, hi as int)));
                assert(v == hi + 1);
                assert forall|x: int| seq_has(r@, x) <==> #[trigger] span_set(rs.take(i + 1)).contains(x) by {
                    assert(span_set(rs.take(i + 1)).contains(x) == (base.contains(x) || (lo <= x <= hi)));
                    assert(seq_has(r@, x) <==> (base.contains(x) || (lo <= x < v)));
                    assert(v == hi + 1);
                }
                if i + 1 < rs.len() {
                    assert(rs[i as int].1 < rs[i + 1].0);
                }
            }
            i = i + 1;
        }
        proof {
            assert(rs.take(i as int) =~= rs);
        }
        r
    }

    /// The value of a domain holding exactly one value.
    pub fn fixed_value(&self) -> (r: Option<i32>)
        ensures
            r matches Some(v) ==> self@ == set![v as int],
            r is None ==> forall|v: int| self@ != set![v],
    {
        proof {
            use_type_invariant(self);
        }
        let rs = Ghost(self.ranges@);
        if self.ranges.len() == 1 && self.ranges[0].0 == self.ranges[0].1 {
            let v = self.ranges[0].0;
            proof {
                lemma_span_push(Seq::empty(), (v, v));
                assert(Seq::<(i32, i32)>::empty().push((v, v)) =~= rs@);
                assert(span_set(Seq::<(i32, i32)>::empty()) =~= Set::<int>::empty());
                assert(self@ =~= set![v as int]);
            }
            Some(v)
        } else {
            proof {
                assert forall|v: int| self@ != set![v] by {
                    if self@ == set![v] {
                        lemma_span_empty(rs@);
                        if rs@.len() >= 2 {
                            lemma_span_member(rs@, 0, rs@[0].0 as int);
                            lemma_span_member(rs@, 1, rs@[1].0 as int);
                            assert(rs@[0].1 < rs@[1].0);
                        } else {
                            lemma_span_member(rs@, 0, rs@[0].0 as int);
                            lemma_span_member(rs@, 0, rs@[0].1 as int);
                        }
                    }
                }
            }
            None
        }
    }
}

/// `t` is `s` with some values removed from some domains.
pub open spec fn narrows(s: Seq<Set<int>>, t: Seq<Set<int>>) -> bool {
    &&& t.len() == s.len()
    &&& forall|k: int| 0 <= k < s.len() ==> (#[trigger] t[k]).subset_of(s[k])
}

/// Narrowing twice is narrowing, and a running "changed" flag stays exact.
pub proof fn lemma_narrow_step(s0: Seq<Set<int>>, cur: Seq<Set<int>>, next: Seq<Set<int>>, flag: bool, step: bool)
    requires
        narrows(s0, cur),
        narrows(cur, next),
        flag == (cur != s0),
        step == (next != cur),
    ensures
        narrows(s0, next),
        (flag || step) == (next != s0),
{
    assert forall|k: int| 0 <= k < s0.len() implies (#[trigger] next[k]).subset_of(s0[k]) by {
        assert(next[k].subset_of(cur[k]));
        assert(cur[k].subset_of(s0[k]));
    }
    if step {
        assert(!(next =~= cur));
        let k = choose|k: int| 0 <= k < next.len() && next[k] != cur[k];
        assert(!(next[k] =~= cur[k]));
        let x = choose|x: int| next[k].contains(x) != cur[k].contains(x);
        assert(cur[k].contains(x) && !next[k].contains(x));
        assert(s0[k].contains(x));
        assert(next[k] != s0[k]);
    } else if flag {
        assert(next == cur);
    } else {
        assert(next == cur);
        assert(cur == s0);
    }
}

/// Narrowing is transitive.
pub proof fn lemma_narrows_trans(a: Seq<Set<int>>, b: Seq<Set<int>>, c: Seq<Set<int>>)
    requires
        narrows(a, b),
        narrows(b, c),
    ensures
        narrows(a, c),
{
    assert forall|k: int| 0 <= k < a.len() implies (#[trigger] c[k]).subset_of(a[k]) by {
        assert(c[k].subset_of(b[k]));
        assert(b[k].subset_of(a[k]));
    }
}

/// Updating a domain to a subset of itself narrows the store, and changes it exactly
/// when the subset is proper.
pub proof fn lemma_update_narrows(s: Seq<Set<int>>, i: int, d: Set<int>)
    requires
        0 <= i < s.len(),
        d.subset_of(s[i]),
    ensures
        narrows(s, s.update(i, d)),
        (s.update(i, d) != s) == (d != s[i]),
{
    if d == s[i] {
        assert(s.update(i, d) =~= s);
    } else {
        assert(s.update(i, d)[i] != s[i]);
    }
}

/// Sum of the sizes of the domains of `s`.
pub open spec fn total_size(s: Seq<Set<int>>) -> nat
    decreases s.len(),
{
    if s.len() == 0 {
        0
    } else {
        total_size(s.drop_last()) + s.last().len()
    }
}

/// Narrowing a store of finite domains never grows its total size, and a proper
/// narrowing shrinks it.
pub proof fn lemma_total_size_narrows(s: Seq<Set<int>>, t: Seq<Set<int>>)
    requires
        narrows(s, t),
        forall|i: int| 0 <= i < s.len() ==> (#[trigger] s[i]).finite(),
    ensures
        total_size(t) <= total_size(s),
        t != s ==> total_size(t) < total_size(s),
    decreases s.len(),
{
    if s.len() == 0 {
        assert(t =~= s);
    } else {
        let n = s.len() - 1;
        assert(narrows(s.drop_last(), t.drop_last())) by {
            assert forall|k: int| 0 <= k < s.drop_last().len() implies (#[trigger] t.drop_last()[k]).subset_of(s.drop_last()[k]) by {
                assert(t[k].subset_of(s[k]));
            }
        }
        lemma_total_size_narrows(s.drop_last(), t.drop_last());
        assert(t[n].subset_of(s[n]));
        vstd::set_lib::lemma_len_subset(t[n], s[n]);
        assert(s[n].finite());
        if t != s {
            if t.drop_last() == s.drop_last() {
                if t[n] == s[n] {
                    assert forall|k: int| 0 <= k < t.len() implies t[k] == s[k] by {
                        if k < n {
                            assert(t[k] == t.drop_last()[k]);
                            assert(s[k] == s.drop_last()[k]);
                        }
                    }
                    assert(t =~= s);
                }
                assert(!(t[n] =~= s[n]));
                let x = choose|x: int| s[n].contains(x) != t[n].contains(x);
                assert(s[n].contains(x) && !t[n].contains(x));
                assert(t[n].subset_of(s[n].remove(x)));
                vstd::set_lib::lemma_len_subset(t[n], s[n].remove(x));
            }
        }
    }
}

/// The domains of all variables of a problem, indexed by [`VariableId`].
pub struct DomainStore {
    domains: Vec<IntDomain>,
}

impl View for DomainStore {
    type V = Seq<Set<int>>;

    closed spec fn view(&self) -> Seq<Set<int>> {
        self.domains@.map_values(|d: IntDomain| d@)
    }
}

impl DomainStore {
    #[verifier::type_invariant]
    spec fn inv(self) -> bool {
        forall|i: int| 0 <= i < self.domains@.len() ==> in_i32_range(#[trigger] self.domains@[i]@) && self.domains@[i]@.finite()
    }

    /// Every domain of the store is finite and holds `i32` values only.
    pub fn assert_in_range(&self)
        ensures
            forall|i: int| #![trigger self@[i]] 0 <= i < self@.len() ==> in_i32_range(self@[i]) && self@[i].finite(),
    {
        proof {
            use_type_invariant(self);
            assert forall|i: int| 0 <= i < self@.len() implies in_i32_range(#[trigger] self@[i]) && self@[i].finite() by {
                assert(self@[i] == self.domains@[i]@);
            }
        }
    }

    /// Replaces the domain at `i` by a subset of it.
    fn replace_domain(&mut self, i: usize, d: IntDomain)
        requires
            i < old(self)@.len(),
            d@.subset_of(old(self)@[i as int]),
        ensures
            final(self)@ == old(self)@.update(i as int, d@),
    {
        proof {
            use_type_invariant(&*self);
            assert(old(self)@[i as int] == self.domains@[i as int]@);
        }
        let mut domains: Vec<IntDomain> = Vec::new();
        std::mem::swap(&mut domains, &mut self.domains);
        let ghost dv = d@;
        domains.set(i, d);
        proof {
            assert forall|k: int| 0 <= k < domains@.len() implies in_i32_range(#[trigger] domains@[k]@) && domains@[k]@.finite() by {
                if k != i {
                    assert(domains@[k] == old(self).domains@[k]);
                } else {
                    vstd::set_lib::lemma_set_subset_finite(old(self).domains@[k]@, dv);
                }
            }
        }
        self.domains = domains;
        proof {
            assert(self@ =~= old(self)@.update(i as int, dv));
        }
    }
    /// A store with no variable.
    pub fn new() -> (s: Self)
        ensures
            s@ == Seq::<Set<int>>::empty(),
    {
        let s = DomainStore { domains: Vec::new() };
        proof {
            assert(s@ =~= Seq::<Set<int>>::empty());
        }
        s
    }

    /// Number of variables.
    pub fn len(&self) -> (n: usize)
        ensures
            n == self@.len(),
    {
        self.domains.len()
    }

    /// Adds a variable with domain `domain` and returns its identifier.
    pub fn new_variable(&mut self, domain: IntDomain) -> (id: VariableId)
        ensures
            id.index == old(self)@.len(),
            final(self)@ == old(self)@.push(domain@),
    {
        let id = VariableId { index: self.domains.len() };
        let ghost d = domain@;
        proof {
            use_type_invariant(&*self);
            use_type_invariant(&domain);
            lemma_span_in_range(domain.ranges@);
            lemma_span_finite(domain.ranges@);
        }
        let mut domains: Vec<IntDomain> = Vec::new();
        std::mem::swap(&mut domains, &mut self.domains);
        domains.push(domain);
        proof {
            assert forall|k: int| 0 <= k < domains@.len() implies in_i32_range(#[trigger] domains@[k]@) && domains@[k]@.finite() by {
                if k < domains@.len() - 1 {
                    assert(domains@[k] == old(self).domains@[k]);
                }
            }
        }
        self.domains = domains;
        proof {
            assert(self@ =~= old(self)@.push(d));
        }
        id
    }

    /// The domain of `var`.
    pub fn domain(&self, var: VariableId) -> (d: &IntDomain)
        requires
            var.index < self@.len(),
        ensures
            d@ == self@[var.index as int],
    {
        &self.domains[var.index]
    }

    /// The smallest value of `var`.
    pub fn min(&self, var: VariableId) -> (r: Option<i32>)
        requires
            var.index < self@.len(),
        ensures
            r is None <==> self@[var.index as int].is_empty(),
            r matches Some(m) ==> is_least(self@[var.index as int], m as int),
    {
        self.domains[var.index].min()
    }

    /// The largest value of `var`.
    pub fn max(&self, var: VariableId) -> (r: Option<i32>)
        requires
            var.index < self@.len(),
        ensures
            r is None <==> self@[var.index as int].is_empty(),
            r matches Some(m) ==> is_greatest(self@[var.index as int], m as int),
    {
        self.domains[var.index].max()
    }

    /// The value of `var` when its domain holds exactly one value.
    pub fn fixed_value(&self, var: VariableId) -> (r: Option<i32>)
        requires
            var.index < self@.len(),
        ensures
            r matches Some(v) ==> self@[var.index as int] == set![v as int],
            r is None ==> forall|v: int| self@[var.index as int] != set![v],
    {
        self.domains[var.index].fixed_value()
    }

    /// Whether `value` is in the domain of `var`.
    pub fn contains(&self, var: VariableId, value: i32) -> (r: bool)
        requires
            var.index < self@.len(),
        ensures
            r == self@[var.index as int].contains(value as int),
    {
        self.domains[var.index].contains(value)
    }

    /// Whether the domain of `var` is empty.
    pub fn is_empty(&self, var: VariableId) -> (r: bool)
        requires
            var.index < self@.len(),
        ensures
            r == self@[var.index as int].is_empty(),
    {
        self.domains[var.index].is_empty()
    }

    /// The values of `var`, in increasing order.
    pub fn values(&self, var: VariableId) -> (r: Vec<i32>)
        requires
            var.index < self@.len(),
        ensures
            forall|j: int, k: int| 0 <= j < k < r@.len() ==> r@[j] < r@[k],
            forall|k: int| 0 <= k < r@.len() ==> self@[var.index as int].contains(#[trigger] r@[k] as int),
            forall|x: int| #[trigger] self@[var.index as int].contains(x) ==> seq_has(r@, x),
    {
        self.domains[var.index].values()
    }

    /// Removes the values of `var` below `bound`; returns whether any was removed.
    pub fn remove_below(&mut self, var: VariableId, bound: i32) -> (changed: bool)
        requires
            var.index < old(self)@.len(),
        ensures
            final(self)@ == old(self)@.update(var.index as int, at_least(old(self)@[var.index as int], bound as int)),
            changed == (at_least(old(self)@[var.index as int], bound as int) != old(self)@[var.index as int]),
            changed == (final(self)@ != old(self)@),
            narrows(old(self)@, final(self)@),
    {
        let i = var.index;
        let ghost before = self.domains[i as int]@;
        let mn = self.domains[i].min();
        let changed = match mn {
            Some(m) => m < bound,
            None => false,
        };
        let d = self.domains[i].above(bound);
        proof {
            match mn {
                Some(m) => {
                    if changed {
                        assert(before.contains(m as int) && !at_least(before, bound as int).contains(m as int));
                    } else {
                        assert(at_least(before, bound as int) =~= before);
                    }
                },
                None => {
                    assert(at_least(before, bound as int) =~= before);
                },
            }
        }
        self.replace_domain(i, d);
        proof {
            lemma_update_narrows(old(self)@, i as int, d@);
        }
        changed
    }
    /// Removes the values of `var` above `bound`; returns whether any was removed.
    pub fn remove_above(&mut self, var: VariableId, bound: i32) -> (changed: bool)
        requires
            var.index < old(self)@.len(),
        ensures
            final(self)@ == old(self)@.update(var.index as int, at_most(old(self)@[var.index as int], bound as int)),
            changed == (at_most(old(self)@[var.index as int], bound as int) != old(self)@[var.index as int]),
            changed == (final(self)@ != old(self)@),
            narrows(old(self)@, final(self)@),
    {
        let i = var.index;
        let ghost before = self.domains[i as int]@;
        let mx = self.domains[i].max();
        let changed = match mx {
            Some(m) => m > bound,
            None => false,
        };
        let d = self.domains[i].below(bound);
        proof {
            match mx {
                Some(m) => {
                    if changed {
                        assert(before.contains(m as int) && !at_most(before, bound as int).contains(m as int));
                    } else {
                        assert(at_most(before, bound as int) =~= before);
                    }
                },
                None => {
                    assert(at_most(before, bound as int) =~= before);
                },
            }
        }
        self.replace_domain(i, d);
        proof {
            lemma_update_narrows(old(self)@, i as int, d@);
        }
        changed
    }

    /// Removes `value` from the domain of `var`; returns whether it was there.
    pub fn remove_value(&mut self, var: VariableId, value: i32) -> (changed: bool)
        requires
            var.index < old(self)@.len(),
        ensures
            final(self)@ == old(self)@.update(var.index as int, old(self)@[var.index as int].remove(value as int)),
            changed == old(self)@[var.index as int].contains(value as int),
            changed == (old(self)@[var.index as int].remove(value as int) != old(self)@[var.index as int]),
            changed == (final(self)@ != old(self)@),
            narrows(old(self)@, final(self)@),
    {
        let i = var.index;
        let ghost before = self.domains[i as int]@;
        let changed = self.domains[i].contains(value);
        let d = self.domains[i].without(value);
        proof {
            if changed {
                assert(!before.remove(value as int).contains(value as int));
            } else {
                assert(before.remove(value as int) =~= before);
            }
        }
        self.replace_domain(i, d);
        proof {
            lemma_update_narrows(old(self)@, i as int, d@);
        }
        changed
    }
    /// Removes the values of `var` outside `lo..=hi`, below first; returns whether any
    /// was removed.
    pub fn restrict(&mut self, var: VariableId, lo: i32, hi: i32) -> (changed: bool)
        requires
            var.index < old(self)@.len(),
        ensures
            final(self)@ == old(self)@.update(var.index as int, between(old(self)@[var.index as int], lo as int, hi as int)),
            changed == (final(self)@ != old(self)@),
            narrows(old(self)@, final(self)@),
    {
        let ghost s0 = self@;
        let c1 = self.remove_below(var, lo);
        let ghost s1 = self@;
        let c2 = self.remove_above(var, hi);
        proof {
            lemma_narrow_step(s0, s1, self@, c1, c2);
            let t = var.index as int;
            assert(at_most(at_least(s0[t], lo as int), hi as int) =~= between(s0[t], lo as int, hi as int));
            assert(self@ =~= s0.update(t, between(s0[t], lo as int, hi as int)));
        }
        c1 || c2
    }
}

} // verus!
