//! Bipartite matching between variables and values (Hopcroft–Karp), strongly connected
//! components (Tarjan) and Régin's support test for all-different filtering.
use std::collections::HashMap;
use vstd::prelude::*;

use crate::domain::{in_i32_range, lemma_narrow_step, lemma_narrows_trans, narrows, seq_has, DomainStore, VariableId};
use crate::gcc::{collect_values, domain_union, in_list, lemma_seq_has_take_step};
use crate::inverse::vars_in_range;
use crate::linear_scalar::{sorted_elems, sorted_listing};

verus! {

/// Distance of a left vertex that the breadth-first search has not reached.
pub const INF: usize = usize::MAX;

/// Every adjacency entry names a right vertex below `right_count`.
pub open spec fn adj_ok(adj: Seq<Vec<usize>>, right_count: int) -> bool {
    forall|l: int, j: int| 0 <= l < adj.len() && 0 <= j < adj[l]@.len() ==> #[trigger] adj[l]@[j] < right_count
}

/// `pl` and `pr` describe a matching of the graph `adj`, except that the right vertex
/// `stale` (if any) may still point to a left vertex that has moved on.
pub open spec fn matching_except(
    adj: Seq<Vec<usize>>,
    pl: Seq<Option<usize>>,
    pr: Seq<Option<usize>>,
    stale: int,
) -> bool {
    &&& pl.len() == adj.len()
    &&& forall|l: int|
        0 <= l < pl.len() && (#[trigger] pl[l]) is Some ==> {
            let r = pl[l].unwrap();
            &&& (r as int) < pr.len()
            &&& adj[l]@.contains(r)
            &&& pr[r as int] is Some
            &&& pr[r as int].unwrap() as int == l
        }
    &&& forall|r: int|
        0 <= r < pr.len() && r != stale && (#[trigger] pr[r]) is Some ==> {
            let l = pr[r].unwrap();
            &&& (l as int) < pl.len()
            &&& pl[l as int] is Some
            &&& pl[l as int].unwrap() as int == r
        }
}

/// `pl` and `pr` describe a matching of the graph `adj`: each matched left vertex is
/// paired with one of its neighbours, and the two directions agree.
pub open spec fn matching_ok(adj: Seq<Vec<usize>>, pl: Seq<Option<usize>>, pr: Seq<Option<usize>>) -> bool {
    matching_except(adj, pl, pr, -1)
}

/// Number of matched left vertices.
pub open spec fn count_some(pl: Seq<Option<usize>>) -> nat
    decreases pl.len(),
{
    if pl.len() == 0 {
        0
    } else {
        count_some(pl.drop_last()) + if pl.last() is Some { 1nat } else { 0nat }
    }
}

proof fn lemma_count_some_le(pl: Seq<Option<usize>>)
    ensures
        count_some(pl) <= pl.len(),
    decreases pl.len(),
{
    if pl.len() > 0 {
        lemma_count_some_le(pl.drop_last());
    }
}

/// Sequences that agree on which entries are `Some` have the same count.
proof fn lemma_count_some_same(a: Seq<Option<usize>>, b: Seq<Option<usize>>)
    requires
        a.len() == b.len(),
        forall|i: int| 0 <= i < a.len() ==> ((#[trigger] a[i]) is Some <==> b[i] is Some),
    ensures
        count_some(a) == count_some(b),
    decreases a.len(),
{
    if a.len() > 0 {
        let (da, db) = (a.drop_last(), b.drop_last());
        assert forall|i: int| 0 <= i < da.len() implies ((#[trigger] da[i]) is Some <==> db[i] is Some) by {
            assert(da[i] == a[i] && db[i] == b[i]);
        }
        lemma_count_some_same(da, db);
        assert(a.last() == a[a.len() - 1] && b.last() == b[b.len() - 1]);
    }
}

/// Matching one more left vertex, keeping every other vertex's status, adds one to the count.
proof fn lemma_count_some_gain(a: Seq<Option<usize>>, b: Seq<Option<usize>>, k: int)
    requires
        a.len() == b.len(),
        0 <= k < a.len(),
        a[k] is None,
        b[k] is Some,
        forall|i: int| 0 <= i < a.len() && i != k ==> ((#[trigger] a[i]) is Some <==> b[i] is Some),
    ensures
        count_some(b) == count_some(a) + 1,
    decreases a.len(),
{
    let (da, db) = (a.drop_last(), b.drop_last());
    if k == a.len() - 1 {
        assert forall|i: int| 0 <= i < da.len() implies ((#[trigger] da[i]) is Some <==> db[i] is Some) by {
            assert(da[i] == a[i] && db[i] == b[i]);
        }
        lemma_count_some_same(da, db);
    } else {
        assert forall|i: int| 0 <= i < da.len() && i != k implies ((#[trigger] da[i]) is Some <==> db[i] is Some) by {
            assert(da[i] == a[i] && db[i] == b[i]);
        }
        assert(da[k] == a[k] && db[k] == b[k]);
        lemma_count_some_gain(da, db, k);
        assert(a.last() == a[a.len() - 1] && b.last() == b[b.len() - 1]);
    }
}

/// The left vertices that `pl` matches.
pub open spec fn matched_set(pl: Seq<Option<usize>>) -> Set<int> {
    Set::new(|l: int| 0 <= l < pl.len() && pl[l] is Some)
}

/// The count of matched left vertices is the size of their set.
proof fn lemma_count_some_set(pl: Seq<Option<usize>>)
    ensures
        matched_set(pl).finite(),
        count_some(pl) == matched_set(pl).len(),
    decreases pl.len(),
{
    if pl.len() == 0 {
        assert(matched_set(pl) =~= Set::<int>::empty());
    } else {
        let d = pl.drop_last();
        lemma_count_some_set(d);
        let n = pl.len() - 1;
        if pl[n] is Some {
            assert(matched_set(pl) =~= matched_set(d).insert(n));
        } else {
            assert(matched_set(pl) =~= matched_set(d));
        }
        assert(pl.last() == pl[n]);
    }
}

/// The left vertices `x` with `reach[x] != INF` include every free left vertex, and
/// every neighbour of such a vertex is matched to such a vertex: no alternating path
/// from a free left vertex ends at a free right vertex.
pub open spec fn alternating_closed(
    adj: Seq<Vec<usize>>,
    pl: Seq<Option<usize>>,
    pr: Seq<Option<usize>>,
    reach: Seq<usize>,
) -> bool {
    &&& reach.len() == adj.len()
    &&& forall|l: int| 0 <= l < pl.len() && (#[trigger] pl[l]) is None ==> reach[l] != INF
    &&& forall|l: int, j: int|
        0 <= l < adj.len() && reach[l] != INF && 0 <= j < adj[l]@.len() ==> (#[trigger] pr[adj[l]@[j] as int]) is Some
            && reach[pr[adj[l]@[j] as int].unwrap() as int] != INF
}

/// A matching closed under alternating reachability is maximum: no matching of the same
/// graph has more edges.
proof fn lemma_closed_maximum(
    adj: Seq<Vec<usize>>,
    pl: Seq<Option<usize>>,
    pr: Seq<Option<usize>>,
    reach: Seq<usize>,
    pl2: Seq<Option<usize>>,
    pr2: Seq<Option<usize>>,
)
    requires
        adj_ok(adj, pr.len() as int),
        matching_ok(adj, pl, pr),
        alternating_closed(adj, pl, pr, reach),
        matching_ok(adj, pl2, pr2),
    ensures
        count_some(pl2) <= count_some(pl),
{
    let a = matched_set(pl2);
    let b = matched_set(pl);
    lemma_count_some_set(pl2);
    lemma_count_some_set(pl);
    let f = |l: int| if reach[l] == INF { l } else { pr[pl2[l].unwrap() as int].unwrap() as int };
    assert forall|l: int| #[trigger] a.contains(l) implies b.contains(f(l)) && (reach[l] != INF ==> reach[f(l)] != INF) by {
        if reach[l] == INF {
            if pl[l] is None {
            }
        } else {
            let r = pl2[l].unwrap();
            assert(adj[l]@.contains(r));
            let j = choose|j: int| 0 <= j < adj[l]@.len() && adj[l]@[j] == r;
            assert(pr[adj[l]@[j] as int] is Some);
            assert(r < pr.len());
        }
    }
    assert forall|x: int, y: int| a.contains(x) && a.contains(y) && #[trigger] f(x) == #[trigger] f(y) implies x == y by {
        if reach[x] != INF && reach[y] != INF {
            let m = f(x);
            assert(b.contains(m));
            let rx = pl2[x].unwrap();
            let ry = pl2[y].unwrap();
            assert(adj[x]@.contains(rx));
            assert(adj[y]@.contains(ry));
            let jx = choose|j: int| 0 <= j < adj[x]@.len() && adj[x]@[j] == rx;
            let jy = choose|j: int| 0 <= j < adj[y]@.len() && adj[y]@[j] == ry;
            assert(pr[adj[x]@[jx] as int] is Some);
            assert(pr[adj[y]@[jy] as int] is Some);
            assert(pl[m] == Some(rx));
            assert(pl[m] == Some(ry));
        } else if reach[x] != INF {
            assert(reach[f(x)] != INF);
        } else if reach[y] != INF {
            assert(reach[f(y)] != INF);
        }
    }
    assert(vstd::relations::injective_on(f, a));
    vstd::set_lib::lemma_map_size(a, a.map(f), f);
    assert(a.map(f).subset_of(b)) by {
        assert forall|m: int| a.map(f).contains(m) implies b.contains(m) by {
            let l = choose|l: int| a.contains(l) && f(l) == m;
        }
    }
    vstd::set_lib::lemma_len_subset(a.map(f), b);
}

/// Distances are either unreached or a level below `n`.
pub open spec fn dist_ok(dist: Seq<usize>, n: int) -> bool {
    forall|i: int| 0 <= i < dist.len() ==> (#[trigger] dist[i] == INF || 0 <= dist[i] < n)
}

/// Re-pointing `left` to `right` after the search beyond `right` succeeded (or `right`
/// was free) yields a matching, except for `left`'s former partner.
proof fn lemma_extend_path(
    adj: Seq<Vec<usize>>,
    pl0: Seq<Option<usize>>,
    pr0: Seq<Option<usize>>,
    plm: Seq<Option<usize>>,
    prm: Seq<Option<usize>>,
    left: usize,
    right: usize,
    via: Option<usize>,
)
    requires
        matching_ok(adj, pl0, pr0),
        left < pl0.len(),
        right < pr0.len(),
        adj[left as int]@.contains(right),
        plm.len() == pl0.len(),
        prm.len() == pr0.len(),
        pr0[right as int] == via,
        (via is None) ==> plm == pl0 && prm == pr0,
        (via is Some) ==> {
            let next = via.unwrap();
            &&& next != left
            &&& matching_except(adj, plm, prm, right as int)
            &&& plm[next as int] != Some(right)
            &&& prm[right as int] == Some(next)
            &&& forall|r: int| 0 <= r < prm.len() && #[trigger] prm[r] != pr0[r] ==> prm[r] is Some && prm[r].unwrap() != left
            &&& forall|r: int| 0 <= r < prm.len() && #[trigger] pr0[r] == Some(left) ==> prm[r] == pr0[r]
        },
    ensures
        ({
            let pl1 = plm.update(left as int, Some(right));
            let pr1 = prm.update(right as int, Some(left));
            &&& pl0[left as int] is None ==> matching_ok(adj, pl1, pr1)
            &&& pl0[left as int] is Some ==> {
                let r0 = pl0[left as int].unwrap();
                &&& r0 != right
                &&& pr1[r0 as int] == Some(left)
                &&& matching_except(adj, pl1, pr1, r0 as int)
            }
        }),
{
    let pl1 = plm.update(left as int, Some(right));
    let pr1 = prm.update(right as int, Some(left));
    let stale: int = if pl0[left as int] is Some { pl0[left as int].unwrap() as int } else { -1 };
    if pl0[left as int] is Some {
        let r0 = pl0[left as int].unwrap();
        assert(pr0[r0 as int] == Some(left));
        if via is Some {
            assert(via.unwrap() != left);
            assert(r0 != right);
            assert(prm[r0 as int] == pr0[r0 as int]);
        } else {
            assert(r0 != right);
        }
    }
    assert forall|r: int| 0 <= r < pr1.len() && r != stale && (#[trigger] pr1[r]) is Some implies {
        let l = pr1[r].unwrap();
        &&& (l as int) < pl1.len()
        &&& pl1[l as int] is Some
        &&& pl1[l as int].unwrap() as int == r
    } by {
        if r != right {
            let l = pr1[r].unwrap();
            assert(pr1[r] == prm[r]);
            if via is None {
                assert(pr0[r] == Some(l));
                if l == left {
                    assert(pl0[left as int].unwrap() as int == r);
                }
            } else {
                if l == left {
                    assert(prm[r] == pr0[r]);
                    assert(pl0[left as int].unwrap() as int == r);
                } else {
                    assert(prm[r] == Some(l));
                    assert(pl1[l as int] == plm[l as int]);
                }
            }
        }
    }
    assert forall|l: int| 0 <= l < pl1.len() && (#[trigger] pl1[l]) is Some implies {
        let r = pl1[l].unwrap();
        &&& (r as int) < pr1.len()
        &&& adj[l]@.contains(r)
        &&& pr1[r as int] is Some
        &&& pr1[r as int].unwrap() as int == l
    } by {
        if l != left {
            let r = pl1[l].unwrap();
            assert(plm[l] == pl1[l]);
            if r == right {
                if via is None {
                    assert(pr0[r as int] is Some);
                } else {
                    assert(prm[r as int].unwrap() as int == l);
                    assert(false);
                }
            }
        }
    }
}

/// Searches an augmenting path from `left` along the level graph given by `dist`;
/// on success, `left` is (re)matched and every vertex on the path moves along it.
fn dfs(
    left: usize,
    adj: &[Vec<usize>],
    pair_left: &mut Vec<Option<usize>>,
    pair_right: &mut Vec<Option<usize>>,
    dist: &mut Vec<usize>,
) -> (found: bool)
    requires
        adj@.len() < usize::MAX,
        left < adj@.len(),
        adj_ok(adj@, old(pair_right)@.len() as int),
        matching_ok(adj@, old(pair_left)@, old(pair_right)@),
        old(dist)@.len() == adj@.len(),
        dist_ok(old(dist)@, adj@.len() as int),
        old(dist)@[left as int] != INF,
    ensures
        final(pair_left)@.len() == old(pair_left)@.len(),
        final(pair_right)@.len() == old(pair_right)@.len(),
        final(dist)@.len() == old(dist)@.len(),
        dist_ok(final(dist)@, adj@.len() as int),
        final(dist)@[left as int] == old(dist)@[left as int] || final(dist)@[left as int] == INF,
        forall|i: int|
            0 <= i < final(dist)@.len() && i != left && #[trigger] final(dist)@[i] != old(dist)@[i] ==> final(dist)@[i] == INF
                && old(dist)@[i] > old(dist)@[left as int] && old(pair_left)@[i] is Some,
        !found ==> final(pair_left)@ == old(pair_left)@ && final(pair_right)@ == old(pair_right)@,
        !found ==> forall|k: int|
            0 <= k < adj@[left as int]@.len() ==> (#[trigger] old(pair_right)@[adj@[left as int]@[k] as int]) is Some,
        forall|r: int|
            0 <= r < old(pair_right)@.len() && #[trigger] final(pair_right)@[r] != old(pair_right)@[r] ==> final(pair_right)@[r] is Some
                && (final(pair_right)@[r].unwrap() == left || (final(pair_right)@[r].unwrap() < old(dist)@.len() && old(
                dist,
            )@[final(pair_right)@[r].unwrap() as int] > old(dist)@[left as int])),
        forall|r: int|
            0 <= r < old(pair_right)@.len() && (#[trigger] old(pair_right)@[r]) is Some && old(pair_right)@[r].unwrap() != left
                && old(dist)@[old(pair_right)@[r].unwrap() as int] <= old(dist)@[left as int] ==> final(pair_right)@[r]
                == old(pair_right)@[r],
        found ==> final(pair_left)@[left as int] is Some,
        found ==> forall|i: int|
            0 <= i < final(pair_left)@.len() && i != left ==> ((#[trigger] final(pair_left)@[i]) is Some <==> old(pair_left)@[i] is Some),
        found && old(pair_left)@[left as int] is None ==> matching_ok(adj@, final(pair_left)@, final(pair_right)@),
        found && old(pair_left)@[left as int] is Some ==> {
            let r0 = old(pair_left)@[left as int].unwrap();
            &&& final(pair_left)@[left as int] != Some(r0)
            &&& final(pair_right)@[r0 as int] == Some(left)
            &&& matching_except(adj@, final(pair_left)@, final(pair_right)@, r0 as int)
        },
    decreases adj@.len() - old(dist)@[left as int],
{
    let ghost pl0 = pair_left@;
    let ghost pr0 = pair_right@;
    let ghost d0 = dist@;
    let ghost n = adj@.len() as int;
    let row = &adj[left];
    let mut i: usize = 0;
    while i < row.len()
        invariant
            0 <= i <= row@.len(),
            row == adj@[left as int],
            n == adj@.len(),
            n < usize::MAX,
            left < n,
            adj_ok(adj@, pr0.len() as int),
            matching_ok(adj@, pl0, pr0),
            pair_left@ == pl0,
            pair_right@ == pr0,
            pl0 == old(pair_left)@,
            pr0 == old(pair_right)@,
            d0 == old(dist)@,
            d0.len() == n,
            dist@.len() == n,
            dist_ok(dist@, n),
            dist@[left as int] == d0[left as int],
            d0[left as int] != INF,
            0 <= d0[left as int] < n,
            forall|k: int|
                0 <= k < n && k != left && #[trigger] dist@[k] != d0[k] ==> dist@[k] == INF && d0[k] > d0[left as int]
                    && pl0[k] is Some,
            forall|k: int| 0 <= k < i ==> (#[trigger] pr0[row@[k] as int]) is Some,
        decreases row@.len() - i,
    {
        let right = row[i];
        let next_left = pair_right[right];
        let can_extend = match next_left {
            None => true,
            Some(next) => {
                if dist[next] == dist[left] + 1 {
                    let ghost dist_before = dist@;
                    assert(dist@[next as int] == d0[left as int] + 1);
                    assert(next != left);
                    let ok = dfs(next, adj, pair_left, pair_right, dist);
                    proof {
                        assert forall|k: int|
                            0 <= k < n && k != left && #[trigger] dist@[k] != d0[k] implies dist@[k] == INF && d0[k]
                                > d0[left as int] && pl0[k] is Some by {
                            if dist@[k] != dist_before[k] {
                                if k == next {
                                } else {
                                }
                            }
                        }
                    }
                    ok
                } else {
                    false
                }
            },
        };
        if can_extend {
            let ghost plm = pair_left@;
            let ghost prm = pair_right@;
            proof {
                // What the recursive search left behind, in terms of the state at entry.
                match next_left {
                    None => {
                        assert(plm == pl0 && prm == pr0);
                    },
                    Some(next) => {
                        assert(pl0[next as int] == Some(right));
                    },
                }
            }
            pair_left.set(left, Some(right));
            pair_right.set(right, Some(left));
            proof {
                lemma_extend_path(adj@, pl0, pr0, plm, prm, left, right, next_left);
            }
            return true;
        }
        i = i + 1;
    }
    dist.set(left, INF);
    false
}

/// Marking more vertices never lowers the count of marked ones.
proof fn lemma_count_finite_mono(a: Seq<usize>, b: Seq<usize>)
    requires
        a.len() == b.len(),
        forall|i: int| 0 <= i < a.len() && a[i] != INF ==> #[trigger] b[i] != INF,
    ensures
        count_finite(a) <= count_finite(b),
    decreases a.len(),
{
    if a.len() > 0 {
        let (da, db) = (a.drop_last(), b.drop_last());
        assert forall|i: int| 0 <= i < da.len() && da[i] != INF implies #[trigger] db[i] != INF by {
            assert(da[i] == a[i] && db[i] == b[i]);
        }
        lemma_count_finite_mono(da, db);
        assert(a.last() == a[a.len() - 1] && b.last() == b[b.len() - 1]);
    }
}

/// Searches an augmenting path from `left` through left vertices not yet marked in
/// `seen`, marking each vertex it enters; on success, `left` is (re)matched and every
/// vertex on the path moves along it. On failure the pairs are unchanged, and every
/// vertex it marked has only matched neighbours whose partners are marked.
fn try_augment(
    left: usize,
    adj: &[Vec<usize>],
    pair_left: &mut Vec<Option<usize>>,
    pair_right: &mut Vec<Option<usize>>,
    seen: &mut Vec<usize>,
) -> (found: bool)
    requires
        left < adj@.len(),
        adj_ok(adj@, old(pair_right)@.len() as int),
        matching_ok(adj@, old(pair_left)@, old(pair_right)@),
        old(seen)@.len() == adj@.len(),
        old(seen)@[left as int] == INF,
    ensures
        final(pair_left)@.len() == old(pair_left)@.len(),
        final(pair_right)@.len() == old(pair_right)@.len(),
        final(seen)@.len() == old(seen)@.len(),
        final(seen)@[left as int] != INF,
        forall|i: int| 0 <= i < old(seen)@.len() && old(seen)@[i] != INF ==> #[trigger] final(seen)@[i] != INF,
        !found ==> final(pair_left)@ == old(pair_left)@ && final(pair_right)@ == old(pair_right)@,
        !found ==> forall|l: int, j: int|
            0 <= l < adj@.len() && final(seen)@[l] != INF && old(seen)@[l] == INF && 0 <= j < adj@[l]@.len() ==> (
            #[trigger] old(pair_right)@[adj@[l]@[j] as int]) is Some && final(seen)@[old(pair_right)@[adj@[l]@[j] as int].unwrap() as int]
                != INF,
        found ==> final(pair_left)@[left as int] is Some,
        found ==> forall|i: int|
            0 <= i < final(pair_left)@.len() && i != left ==> ((#[trigger] final(pair_left)@[i]) is Some <==> old(pair_left)@[i] is Some),
        found && old(pair_left)@[left as int] is None ==> matching_ok(adj@, final(pair_left)@, final(pair_right)@),
        found && old(pair_left)@[left as int] is Some ==> {
            let r0 = old(pair_left)@[left as int].unwrap();
            &&& final(pair_left)@[left as int] != Some(r0)
            &&& final(pair_right)@[r0 as int] == Some(left)
            &&& matching_except(adj@, final(pair_left)@, final(pair_right)@, r0 as int)
        },
        forall|r: int|
            0 <= r < old(pair_right)@.len() && #[trigger] final(pair_right)@[r] != old(pair_right)@[r] ==> final(pair_right)@[r] is Some
                && (final(pair_right)@[r].unwrap() == left || (final(pair_right)@[r].unwrap() < old(seen)@.len() && old(
                seen,
            )@[final(pair_right)@[r].unwrap() as int] == INF)),
        forall|r: int|
            0 <= r < old(pair_right)@.len() && (#[trigger] old(pair_right)@[r]) is Some && old(pair_right)@[r].unwrap() != left
                && old(seen)@[old(pair_right)@[r].unwrap() as int] != INF ==> final(pair_right)@[r] == old(pair_right)@[r],
    decreases adj@.len() - count_finite(old(seen)@),
{
    let ghost pl0 = pair_left@;
    let ghost pr0 = pair_right@;
    let ghost s0 = seen@;
    let ghost n = adj@.len() as int;
    proof {
        lemma_count_finite_reach(seen@, left as int, 0);
        lemma_count_finite_le(seen@.update(left as int, 0));
    }
    seen.set(left, 0);
    let row = &adj[left];
    let mut i: usize = 0;
    while i < row.len()
        invariant
            0 <= i <= row@.len(),
            row == adj@[left as int],
            n == adj@.len(),
            left < n,
            adj_ok(adj@, pr0.len() as int),
            matching_ok(adj@, pl0, pr0),
            pair_left@ == pl0,
            pair_right@ == pr0,
            pl0 == old(pair_left)@,
            pr0 == old(pair_right)@,
            s0 == old(seen)@,
            s0.len() == n,
            s0[left as int] == INF,
            seen@.len() == n,
            seen@[left as int] != INF,
            forall|k: int| 0 <= k < n && s0[k] != INF ==> #[trigger] seen@[k] != INF,
            count_finite(seen@) >= count_finite(s0) + 1,
            forall|k: int| 0 <= k < i ==> (#[trigger] pr0[row@[k] as int]) is Some && seen@[pr0[row@[k] as int].unwrap() as int] != INF,
            forall|l: int, j: int|
                0 <= l < n && seen@[l] != INF && s0[l] == INF && l != left && 0 <= j < adj@[l]@.len() ==> (
                #[trigger] pr0[adj@[l]@[j] as int]) is Some && seen@[pr0[adj@[l]@[j] as int].unwrap() as int] != INF,
        decreases row@.len() - i,
    {
        let right = row[i];
        proof {
            assert(adj@[left as int]@[i as int] == right);
        }
        match pair_right[right] {
            None => {
                pair_left.set(left, Some(right));
                pair_right.set(right, Some(left));
                proof {
                    lemma_extend_path(adj@, pl0, pr0, pl0, pr0, left, right, None);
                }
                return true;
            },
            Some(next) => {
                if seen[next] == INF {
                    let ghost sc = seen@;
                    proof {
                        lemma_count_finite_le(sc);
                        assert(next != left);
                    }
                    if try_augment(next, adj, pair_left, pair_right, seen) {
                        let ghost plm = pair_left@;
                        let ghost prm = pair_right@;
                        proof {
                            assert(pl0[next as int] == Some(right));
                        }
                        pair_left.set(left, Some(right));
                        pair_right.set(right, Some(left));
                        proof {
                            lemma_extend_path(adj@, pl0, pr0, plm, prm, left, right, Some(next));
                        }
                        return true;
                    }
                    proof {
                        lemma_count_finite_mono(sc, seen@);
                        assert forall|l: int, j: int|
                            0 <= l < n && seen@[l] != INF && s0[l] == INF && l != left && 0 <= j < adj@[l]@.len() implies (
                            #[trigger] pr0[adj@[l]@[j] as int]) is Some && seen@[pr0[adj@[l]@[j] as int].unwrap() as int] != INF by {
                            if sc[l] != INF {
                                assert(sc[pr0[adj@[l]@[j] as int].unwrap() as int] != INF);
                            }
                        }
                        assert forall|k: int| 0 <= k < i implies (#[trigger] pr0[row@[k] as int]) is Some && seen@[pr0[row@[k] as int].unwrap() as int] != INF by {
                            assert(sc[pr0[row@[k] as int].unwrap() as int] != INF);
                        }
                    }
                }
            },
        }
        i = i + 1;
    }
    proof {
        assert forall|l: int, j: int|
            0 <= l < adj@.len() && seen@[l] != INF && s0[l] == INF && 0 <= j < adj@[l]@.len() implies (
            #[trigger] pr0[adj@[l]@[j] as int]) is Some && seen@[pr0[adj@[l]@[j] as int].unwrap() as int] != INF by {
            if l == left {
                assert(pr0[row@[j] as int] is Some);
            }
        }
    }
    false
}

/// Maximum number of matched left vertices found by repeated phases of breadth-first
/// layering and depth-first augmentation, confirmed by a last search for an augmenting
/// path from every free left vertex; also returns the final pairs.
fn run_phases(adj: &[Vec<usize>], left_count: usize, right_count: usize) -> (r: (usize, Vec<Option<usize>>, Vec<Option<usize>>))
    requires
        adj@.len() == left_count,
        left_count < usize::MAX,
        adj_ok(adj@, right_count as int),
    ensures
        r.1@.len() == left_count,
        r.2@.len() == right_count,
        matching_ok(adj@, r.1@, r.2@),
        r.0 == count_some(r.1@),
        r.0 <= left_count,
        forall|pl: Seq<Option<usize>>, pr: Seq<Option<usize>>| #[trigger] matching_ok(adj@, pl, pr) ==> count_some(pl) <= r.0,
{
    let mut pair_left: Vec<Option<usize>> = Vec::new();
    while pair_left.len() < left_count
        invariant
            pair_left@.len() <= left_count,
            forall|i: int| 0 <= i < pair_left@.len() ==> pair_left@[i] is None,
        decreases left_count - pair_left@.len(),
    {
        pair_left.push(None);
    }
    let mut pair_right: Vec<Option<usize>> = Vec::new();
    while pair_right.len() < right_count
        invariant
            pair_right@.len() <= right_count,
            forall|i: int| 0 <= i < pair_right@.len() ==> pair_right@[i] is None,
        decreases right_count - pair_right@.len(),
    {
        pair_right.push(None);
    }
    let mut dist: Vec<usize> = Vec::new();
    while dist.len() < left_count
        invariant
            dist@.len() <= left_count,
        decreases left_count - dist@.len(),
    {
        dist.push(0);
    }
    let mut matching: usize = 0;
    proof {
        lemma_count_some_zero(pair_left@);
    }
    loop
        invariant
            adj@.len() == left_count,
            left_count < usize::MAX,
            adj_ok(adj@, right_count as int),
            pair_left@.len() == left_count,
            pair_right@.len() == right_count,
            dist@.len() == left_count,
            matching_ok(adj@, pair_left@, pair_right@),
            matching == count_some(pair_left@),
        decreases left_count - matching,
    {
        proof {
            lemma_count_some_le(pair_left@);
        }
        if !bfs(adj, &pair_left, &pair_right, &mut dist) {
            break;
        }
        let before = matching;
        let mut left: usize = 0;
        while left < left_count
            invariant
                0 <= left <= left_count,
                adj@.len() == left_count,
                left_count < usize::MAX,
                adj_ok(adj@, right_count as int),
                pair_left@.len() == left_count,
                pair_right@.len() == right_count,
                dist@.len() == left_count,
                dist_ok(dist@, left_count as int),
                matching_ok(adj@, pair_left@, pair_right@),
                matching == count_some(pair_left@),
                before <= matching,
                forall|l: int| left <= l < left_count && (#[trigger] pair_left@[l]) is None ==> dist@[l] == 0,
            decreases left_count - left,
        {
            if pair_left[left].is_none() {
                let ghost pl_before = pair_left@;
                let ghost d_before = dist@;
                if dfs(left, adj, &mut pair_left, &mut pair_right, &mut dist) {
                    proof {
                        lemma_count_some_gain(pl_before, pair_left@, left as int);
                        lemma_count_some_le(pair_left@);
                    }
                    matching = matching + 1;
                }
                proof {
                    assert forall|l: int| left + 1 <= l < left_count && (#[trigger] pair_left@[l]) is None implies dist@[l]
                        == 0 by {
                        assert(pl_before[l] is None);
                        if dist@[l] != d_before[l] {
                        }
                    }
                }
            }
            left = left + 1;
        }
        proof {
            lemma_count_some_le(pair_left@);
        }
        if matching == before {
            // No search of this phase succeeded, so the pairs are those the phase
            // started from and another phase would repeat it: the matching is final.
            break;
        }
    }
    proof {
        lemma_count_some_le(pair_left@);
    }
    // Confirm that no augmenting path is left: search one from every free left vertex,
    // sharing the marks of failed searches, and start over after each success.
    let mut seen: Vec<usize> = Vec::new();
    while seen.len() < left_count
        invariant
            seen@.len() <= left_count,
        decreases left_count - seen@.len(),
    {
        seen.push(INF);
    }
    loop
        invariant
            adj@.len() == left_count,
            left_count < usize::MAX,
            adj_ok(adj@, right_count as int),
            pair_left@.len() == left_count,
            pair_right@.len() == right_count,
            seen@.len() == left_count,
            matching_ok(adj@, pair_left@, pair_right@),
            matching == count_some(pair_left@),
            matching <= left_count,
        ensures
            alternating_closed(adj@, pair_left@, pair_right@, seen@),
        decreases left_count - matching,
    {
        let mut k: usize = 0;
        while k < left_count
            invariant
                0 <= k <= left_count,
                seen@.len() == left_count,
                forall|x: int| 0 <= x < k ==> seen@[x] == INF,
            decreases left_count - k,
        {
            seen.set(k, INF);
            k = k + 1;
        }
        let ghost m0 = matching;
        let mut grew = false;
        let mut root: usize = 0;
        while root < left_count
            invariant_except_break
                !grew,
                matching == m0,
                forall|l: int| 0 <= l < root && (#[trigger] pair_left@[l]) is None ==> seen@[l] != INF,
                forall|l: int, j: int|
                    0 <= l < left_count && seen@[l] != INF && 0 <= j < adj@[l]@.len() ==> (
                    #[trigger] pair_right@[adj@[l]@[j] as int]) is Some && seen@[pair_right@[adj@[l]@[j] as int].unwrap() as int]
                        != INF,
            invariant
                0 <= root <= left_count,
                adj@.len() == left_count,
                left_count < usize::MAX,
                adj_ok(adj@, right_count as int),
                pair_left@.len() == left_count,
                pair_right@.len() == right_count,
                seen@.len() == left_count,
                matching_ok(adj@, pair_left@, pair_right@),
                matching == count_some(pair_left@),
                matching <= left_count,
                m0 <= left_count,
            ensures
                grew ==> matching == m0 + 1,
                !grew ==> alternating_closed(adj@, pair_left@, pair_right@, seen@),
            decreases left_count - root,
        {
            if pair_left[root].is_none() && seen[root] == INF {
                let ghost pl_before = pair_left@;
                let ghost pr_before = pair_right@;
                let ghost s_before = seen@;
                if try_augment(root, adj, &mut pair_left, &mut pair_right, &mut seen) {
                    proof {
                        lemma_count_some_gain(pl_before, pair_left@, root as int);
                        lemma_count_some_le(pair_left@);
                    }
                    matching = matching + 1;
                    grew = true;
                    break;
                }
                proof {
                    assert forall|l: int, j: int|
                        0 <= l < left_count && seen@[l] != INF && 0 <= j < adj@[l]@.len() implies (
                        #[trigger] pair_right@[adj@[l]@[j] as int]) is Some && seen@[pair_right@[adj@[l]@[j] as int].unwrap() as int]
                            != INF by {
                        if s_before[l] != INF {
                            assert(s_before[pr_before[adj@[l]@[j] as int].unwrap() as int] != INF);
                        }
                    }
                }
            }
            root = root + 1;
        }
        if !grew {
            break;
        }
    }
    proof {
        lemma_count_some_le(pair_left@);
        assert forall|pl: Seq<Option<usize>>, pr: Seq<Option<usize>>| #[trigger] matching_ok(adj@, pl, pr) implies count_some(pl)
            <= matching by {
            lemma_closed_maximum(adj@, pair_left@, pair_right@, seen@, pl, pr);
        }
    }
    (matching, pair_left, pair_right)
}

proof fn lemma_count_some_zero(pl: Seq<Option<usize>>)
    requires
        forall|i: int| 0 <= i < pl.len() ==> pl[i] is None,
    ensures
        count_some(pl) == 0,
    decreases pl.len(),
{
    if pl.len() > 0 {
        let d = pl.drop_last();
        assert forall|i: int| 0 <= i < d.len() implies d[i] is None by {
            assert(d[i] == pl[i]);
        }
        lemma_count_some_zero(d);
        assert(pl.last() == pl[pl.len() - 1]);
    }
}

/// Number of reached (finite-distance) left vertices.
pub open spec fn count_finite(dist: Seq<usize>) -> nat
    decreases dist.len(),
{
    if dist.len() == 0 {
        0
    } else {
        count_finite(dist.drop_last()) + if dist.last() != INF { 1nat } else { 0nat }
    }
}

proof fn lemma_count_finite_le(dist: Seq<usize>)
    ensures
        count_finite(dist) <= dist.len(),
    decreases dist.len(),
{
    if dist.len() > 0 {
        lemma_count_finite_le(dist.drop_last());
    }
}

proof fn lemma_count_finite_all_inf(dist: Seq<usize>)
    requires
        forall|i: int| 0 <= i < dist.len() ==> dist[i] == INF,
    ensures
        count_finite(dist) == 0,
    decreases dist.len(),
{
    if dist.len() > 0 {
        let d = dist.drop_last();
        assert forall|i: int| 0 <= i < d.len() implies d[i] == INF by {
            assert(d[i] == dist[i]);
        }
        lemma_count_finite_all_inf(d);
        assert(dist.last() == dist[dist.len() - 1]);
    }
}

/// Reaching one more vertex adds one to the count.
proof fn lemma_count_finite_reach(dist: Seq<usize>, k: int, v: usize)
    requires
        0 <= k < dist.len(),
        dist[k] == INF,
        v != INF,
    ensures
        count_finite(dist.update(k, v)) == count_finite(dist) + 1,
    decreases dist.len(),
{
    let u = dist.update(k, v);
    if k == dist.len() - 1 {
        assert(u.drop_last() == dist.drop_last());
    } else {
        assert(u.drop_last() == dist.drop_last().update(k, v));
        lemma_count_finite_reach(dist.drop_last(), k, v);
        assert(u.last() == dist.last());
    }
}

/// Layers the left vertices by alternating-path distance from the free left vertices;
/// returns whether some reached vertex has a free neighbour.
fn bfs(
    adj: &[Vec<usize>],
    pair_left: &Vec<Option<usize>>,
    pair_right: &Vec<Option<usize>>,
    dist: &mut Vec<usize>,
) -> (found: bool)
    requires
        adj@.len() < usize::MAX,
        adj_ok(adj@, pair_right@.len() as int),
        matching_ok(adj@, pair_left@, pair_right@),
        old(dist)@.len() == adj@.len(),
    ensures
        final(dist)@.len() == adj@.len(),
        dist_ok(final(dist)@, adj@.len() as int),
        forall|l: int| 0 <= l < adj@.len() && (#[trigger] pair_left@[l]) is None ==> final(dist)@[l] == 0,
        found ==> exists|l: int, j: int|
            0 <= l < adj@.len() && final(dist)@[l] != INF && 0 <= j < adj@[l]@.len() && (#[trigger] pair_right@[adj@[l]@[j] as int]) is None,
        !found ==> forall|l: int, j: int|
            0 <= l < adj@.len() && final(dist)@[l] != INF && 0 <= j < adj@[l]@.len() ==> (#[trigger] pair_right@[adj@[l]@[j] as int]) is Some,
{
    let n = adj.len();
    let mut i: usize = 0;
    while i < n
        invariant
            0 <= i <= n,
            n == adj@.len(),
            dist@.len() == n,
            forall|k: int| 0 <= k < i ==> dist@[k] == INF,
        decreases n - i,
    {
        dist.set(i, INF);
        i = i + 1;
    }
    proof {
        lemma_count_finite_all_inf(dist@);
    }
    let mut queue: Vec<usize> = Vec::new();
    let mut left: usize = 0;
    while left < n
        invariant
            0 <= left <= n,
            n == adj@.len(),
            n < usize::MAX,
            pair_left@.len() == n,
            dist@.len() == n,
            queue@.len() == count_finite(dist@),
            forall|k: int| left <= k < n ==> dist@[k] == INF,
            forall|k: int| 0 <= k < left ==> (#[trigger] pair_left@[k] is None <==> dist@[k] == 0),
            forall|k: int| 0 <= k < left ==> (dist@[k] == INF || dist@[k] == 0),
            forall|x: int| 0 <= x < n && #[trigger] dist@[x] != INF ==> 0 <= dist@[x] < queue@.len(),
            forall|k: int| 0 <= k < queue@.len() ==> (#[trigger] queue@[k]) < n && 0 <= dist@[queue@[k] as int] <= k,
            forall|x: int| 0 <= x < n && #[trigger] dist@[x] != INF ==> exists|k: int| 0 <= k < queue@.len() && queue@[k] == x,
        decreases n - left,
    {
        let ghost d_prev = dist@;
        let ghost q_prev = queue@;
        if pair_left[left].is_none() {
            proof {
                lemma_count_finite_reach(dist@, left as int, 0);
            }
            dist.set(left, 0);
            queue.push(left);
            proof {
                assert forall|x: int| 0 <= x < n && #[trigger] dist@[x] != INF implies exists|k: int| 0 <= k < queue@.len() && queue@[k] == x by {
                    if x == left {
                        assert(queue@[q_prev.len() as int] == x);
                    } else {
                        assert(d_prev[x] != INF);
                        let k = choose|k: int| 0 <= k < q_prev.len() && q_prev[k] == x;
                        assert(queue@[k] == x);
                    }
                }
                assert forall|k: int| 0 <= k < queue@.len() implies (#[trigger] queue@[k]) < n && 0 <= dist@[queue@[k] as int] <= k by {
                    if k < q_prev.len() {
                        assert(queue@[k] == q_prev[k]);
                    }
                }
            }
        }
        proof {
            assert forall|k: int| 0 <= k < left + 1 implies (#[trigger] pair_left@[k] is None <==> dist@[k] == 0) by {
                if k < left {
                    assert(dist@[k] == d_prev[k]);
                }
            }
        }
        left = left + 1;
    }
    assert forall|k: int| 0 <= k < n && (#[trigger] pair_left@[k] is None) implies dist@[k] == 0 by {}
    let mut found = false;
    let mut head: usize = 0;
    proof {
        lemma_count_finite_le(dist@);
    }
    while head < queue.len()
        invariant
            0 <= head <= queue@.len(),
            n == adj@.len(),
            n < usize::MAX,
            adj_ok(adj@, pair_right@.len() as int),
            matching_ok(adj@, pair_left@, pair_right@),
            pair_left@.len() == n,
            dist@.len() == n,
            queue@.len() == count_finite(dist@),
            count_finite(dist@) <= n,
            forall|k: int| 0 <= k < n ==> (#[trigger] pair_left@[k] is None ==> dist@[k] == 0),
            forall|x: int| 0 <= x < n && #[trigger] dist@[x] != INF ==> 0 <= dist@[x] < queue@.len(),
            forall|k: int| 0 <= k < queue@.len() ==> (#[trigger] queue@[k]) < n && 0 <= dist@[queue@[k] as int] <= k,
            forall|x: int| 0 <= x < n && #[trigger] dist@[x] != INF ==> exists|k: int| 0 <= k < queue@.len() && queue@[k] == x,
            found ==> exists|l: int, j: int|
                0 <= l < n && dist@[l] != INF && 0 <= j < adj@[l]@.len() && (#[trigger] pair_right@[adj@[l]@[j] as int]) is None,
            !found ==> forall|k: int, j: int|
                0 <= k < head && 0 <= j < adj@[queue@[k] as int]@.len() ==> (#[trigger] pair_right@[adj@[queue@[k] as int]@[j] as int]) is Some,
        decreases n + 1 - head, n + 1 - queue@.len(),
    {
        proof {
            lemma_count_finite_le(dist@);
        }
        let cur = queue[head];
        let row = &adj[cur];
        let mut j: usize = 0;
        while j < row.len()
            invariant
                0 <= j <= row@.len(),
                row == adj@[cur as int],
                cur < n,
                0 <= head < queue@.len(),
                queue@[head as int] == cur,
                n == adj@.len(),
                n < usize::MAX,
                adj_ok(adj@, pair_right@.len() as int),
                matching_ok(adj@, pair_left@, pair_right@),
                pair_left@.len() == n,
                dist@.len() == n,
                queue@.len() == count_finite(dist@),
                forall|k: int| 0 <= k < n ==> (#[trigger] pair_left@[k] is None ==> dist@[k] == 0),
                forall|x: int| 0 <= x < n && #[trigger] dist@[x] != INF ==> 0 <= dist@[x] < queue@.len(),
                forall|k: int| 0 <= k < queue@.len() ==> (#[trigger] queue@[k]) < n && 0 <= dist@[queue@[k] as int] <= k,
                forall|x: int| 0 <= x < n && #[trigger] dist@[x] != INF ==> exists|k: int| 0 <= k < queue@.len() && queue@[k] == x,
                found ==> exists|l: int, jj: int|
                    0 <= l < n && dist@[l] != INF && 0 <= jj < adj@[l]@.len() && (#[trigger] pair_right@[adj@[l]@[jj] as int]) is None,
                !found ==> forall|k: int, jj: int|
                    0 <= k < head && 0 <= jj < adj@[queue@[k] as int]@.len() ==> (#[trigger] pair_right@[adj@[queue@[k] as int]@[jj] as int]) is Some,
                !found ==> forall|jj: int| 0 <= jj < j ==> (#[trigger] pair_right@[row@[jj] as int]) is Some,
            decreases row@.len() - j,
        {
            proof {
                lemma_count_finite_le(dist@);
            }
            let right = row[j];
            match pair_right[right] {
                None => {
                    proof {
                        assert(dist@[cur as int] != INF);
                        assert(pair_right@[adj@[cur as int]@[j as int] as int] is None);
                    }
                    found = true;
                },
                Some(next) => {
                    if dist[next] == INF {
                        let ghost q0 = queue@;
                        let ghost d0 = dist@;
                        let nd = dist[cur] + 1;
                        proof {
                            lemma_count_finite_reach(dist@, next as int, nd);
                        }
                        dist.set(next, nd);
                        queue.push(next);
                        proof {
                            assert(queue@[q0.len() as int] == next);
                            assert forall|x: int| 0 <= x < n && #[trigger] dist@[x] != INF implies exists|k: int|
                                0 <= k < queue@.len() && queue@[k] == x by {
                                if x == next {
                                    assert(queue@[q0.len() as int] == x);
                                } else {
                                    assert(d0[x] != INF);
                                    let k = choose|k: int| 0 <= k < q0.len() && q0[k] == x;
                                    assert(queue@[k] == x);
                                }
                            }
                            assert forall|k: int| 0 <= k < queue@.len() implies (#[trigger] queue@[k]) < n && 0 <= dist@[queue@[k] as int] <= k by {
                                if k < q0.len() {
                                    assert(queue@[k] == q0[k]);
                                    assert(d0[q0[k] as int] != INF);
                                }
                            }
                            if found {
                                let (l, jj) = choose|l: int, jj: int|
                                    0 <= l < n && d0[l] != INF && 0 <= jj < adj@[l]@.len() && (#[trigger] pair_right@[adj@[l]@[jj] as int]) is None;
                                assert(dist@[l] != INF);
                            } else {
                                assert forall|k: int, jj: int|
                                    0 <= k < head && 0 <= jj < adj@[queue@[k] as int]@.len() implies (#[trigger] pair_right@[adj@[queue@[k] as int]@[jj] as int]) is Some by {
                                    assert(queue@[k] == q0[k]);
                                }
                            }
                        }
                    }
                },
            }
            j = j + 1;
        }
        proof {
            lemma_count_finite_le(dist@);
        }
        head = head + 1;
    }
    proof {
        if !found {
            assert forall|l: int, j: int|
                0 <= l < adj@.len() && dist@[l] != INF && 0 <= j < adj@[l]@.len() implies (#[trigger] pair_right@[adj@[l]@[j] as int]) is Some by {
                let k = choose|k: int| 0 <= k < queue@.len() && queue@[k] == l;
            }
        }
        lemma_count_finite_le(dist@);
    }
    found
}

/// Size of a maximum matching of the bipartite graph `adj`, found by Hopcroft–Karp.
pub fn hopcroft_karp(adj: &[Vec<usize>], left_count: usize, right_count: usize) -> (size: usize)
    requires
        left_count > 0 ==> adj@.len() == left_count,
        left_count < usize::MAX,
        adj_ok(adj@, right_count as int),
    ensures
        left_count == 0 ==> size == 0,
        left_count > 0 ==> exists|pl: Seq<Option<usize>>, pr: Seq<Option<usize>>|
            pr.len() == right_count && matching_ok(adj@, pl, pr) && size == count_some(pl),
        left_count > 0 ==> forall|pl: Seq<Option<usize>>, pr: Seq<Option<usize>>|
            #[trigger] matching_ok(adj@, pl, pr) ==> count_some(pl) <= size,
        size <= left_count,
{
    if left_count == 0 {
        return 0;
    }
    let (size, _pl, _pr) = run_phases(adj, left_count, right_count);
    size
}

/// Pairs of a matching found by Hopcroft–Karp: the partner of each left and each right vertex.
pub fn hopcroft_karp_matching(adj: &[Vec<usize>], left_count: usize, right_count: usize) -> (r: (
    Vec<Option<usize>>,
    Vec<Option<usize>>,
))
    requires
        adj@.len() == left_count,
        left_count < usize::MAX,
        adj_ok(adj@, right_count as int),
    ensures
        r.0@.len() == left_count,
        r.1@.len() == right_count,
        matching_ok(adj@, r.0@, r.1@),
        forall|pl: Seq<Option<usize>>, pr: Seq<Option<usize>>|
            #[trigger] matching_ok(adj@, pl, pr) ==> count_some(pl) <= count_some(r.0@),
{
    let (_size, pl, pr) = run_phases(adj, left_count, right_count);
    (pl, pr)
}

broadcast use vstd::std_specs::hash::group_hash_axioms;

/// Variables (left) and the distinct values of their domains (right), with the index
/// of each value on the right.
pub struct BipartiteGraph {
    /// Value indices adjacent to each variable.
    pub adj: Vec<Vec<usize>>,
    /// Index of each value.
    pub value_index: HashMap<i32, usize>,
    /// Number of distinct values.
    pub value_count: usize,
}

/// The graph restricted so that variable `var` may only take value index `v`, and no
/// other variable may take it.
pub open spec fn restricted_row(row: Seq<usize>, is_var: bool, v: usize) -> Seq<usize> {
    row.filter(keep_pred(is_var, v))
}

/// Keeps exactly `v` for the pinned variable, everything but `v` for the others.
pub open spec fn keep_pred(is_var: bool, v: usize) -> spec_fn(usize) -> bool {
    |x: usize| if is_var { x == v } else { x != v }
}

/// Keeps the entries of `row` equal to `v` (when `keep`) or different from `v`.
fn filter_row(row: &Vec<usize>, keep: bool, v: usize) -> (out: Vec<usize>)
    ensures
        out@ == restricted_row(row@, keep, v),
{
    let mut out: Vec<usize> = Vec::new();
    let mut i: usize = 0;
    while i < row.len()
        invariant
            0 <= i <= row@.len(),
            out@ == restricted_row(row@.take(i as int), keep, v),
        decreases row@.len() - i,
    {
        proof {
            reveal_with_fuel(Seq::filter, 1);
            assert(row@.take(i + 1).drop_last() == row@.take(i as int));
        }
        let x = row[i];
        if (keep && x == v) || (!keep && x != v) {
            out.push(x);
        }
        i = i + 1;
    }
    assert(row@.take(row@.len() as int) == row@);
    out
}

fn row_contains(row: &Vec<usize>, v: usize) -> (r: bool)
    ensures
        r == row@.contains(v),
{
    let mut i: usize = 0;
    while i < row.len()
        invariant
            0 <= i <= row@.len(),
            forall|j: int| 0 <= j < i ==> row@[j] != v,
        decreases row@.len() - i,
    {
        if row[i] == v {
            return true;
        }
        i = i + 1;
    }
    false
}

/// The value's index, if the value has one.
pub open spec fn value_idx_of(graph: BipartiteGraph, value: i32) -> Option<usize> {
    if graph.value_index@.contains_key(value) { Some(graph.value_index@[value]) } else { None }
}

/// Whether `var_index` can take `value` in a matching that covers every variable:
/// the value must be indexed and adjacent to the variable, and the graph where the
/// variable is pinned to the value (and no other variable uses it) must keep a
/// neighbour for every variable and admit a matching of all `variable_count` variables.
pub fn value_supported_in_graph(
    graph: &BipartiteGraph,
    variable_count: usize,
    var_index: usize,
    value: i32,
) -> (r: bool)
    requires
        adj_ok(graph.adj@, graph.value_count as int),
        variable_count < usize::MAX,
        value_idx_of(*graph, value) is Some ==> var_index < graph.adj@.len(),
        value_idx_of(*graph, value) is Some && graph.adj@[var_index as int]@.contains(value_idx_of(*graph, value).unwrap())
            ==> variable_count == graph.adj@.len() || exists|l: int| 0 <= l < graph.adj@.len()
            && restricted_row(graph.adj@[l]@, l == var_index, value_idx_of(*graph, value).unwrap()).len() == 0,
    ensures
        value_idx_of(*graph, value) is None ==> !r,
        r ==> {
            let v = value_idx_of(*graph, value).unwrap();
            &&& graph.adj@[var_index as int]@.contains(v)
            &&& forall|l: int| 0 <= l < graph.adj@.len() ==> restricted_row(#[trigger] graph.adj@[l]@, l == var_index, v).len() > 0
            &&& exists|adj2: Seq<Vec<usize>>, pl: Seq<Option<usize>>, pr: Seq<Option<usize>>|
                adj2.len() == graph.adj@.len() && (forall|l: int| 0 <= l < adj2.len() ==> (#[trigger] adj2[l])@ == restricted_row(
                    graph.adj@[l]@,
                    l == var_index,
                    v,
                )) && matching_ok(adj2, pl, pr) && count_some(pl) == variable_count
        },
        value_idx_of(*graph, value) is Some && !graph.adj@[var_index as int]@.contains(value_idx_of(*graph, value).unwrap()) ==> !r,
        variable_count == graph.adj@.len() && value_idx_of(*graph, value) is Some && (exists|pl: Seq<Option<usize>>, pr: Seq<Option<usize>>|
            matching_ok(graph.adj@, pl, pr) && count_some(pl) == variable_count && pl[var_index as int] == Some(
                value_idx_of(*graph, value).unwrap(),
            )) ==> r,
{
    let value_idx = match graph.value_index.get(&value) {
        Some(idx) => *idx,
        None => {
            return false;
        },
    };
    assert(value_idx_of(*graph, value) == Some(value_idx));
    let ghost full = variable_count == graph.adj@.len() && exists|pl: Seq<Option<usize>>, pr: Seq<Option<usize>>|
        matching_ok(graph.adj@, pl, pr) && count_some(pl) == variable_count && pl[var_index as int] == Some(value_idx);
    if !row_contains(&graph.adj[var_index], value_idx) {
        proof {
            if full {
                let (pl, pr) = choose|pl: Seq<Option<usize>>, pr: Seq<Option<usize>>|
                    matching_ok(graph.adj@, pl, pr) && count_some(pl) == variable_count && pl[var_index as int] == Some(value_idx);
                assert(pl[var_index as int] is Some);
            }
        }
        return false;
    }
    let mut adj: Vec<Vec<usize>> = Vec::new();
    let mut index: usize = 0;
    while index < graph.adj.len()
        invariant
            0 <= index <= graph.adj@.len(),
            adj@.len() == index,
            forall|l: int| 0 <= l < index ==> (#[trigger] adj@[l])@ == restricted_row(graph.adj@[l]@, l == var_index, value_idx),
        decreases graph.adj@.len() - index,
    {
        let row = filter_row(&graph.adj[index], index == var_index, value_idx);
        adj.push(row);
        index = index + 1;
    }
    proof {
        if full {
            let (pl, pr) = choose|pl: Seq<Option<usize>>, pr: Seq<Option<usize>>|
                matching_ok(graph.adj@, pl, pr) && count_some(pl) == variable_count && pl[var_index as int] == Some(value_idx);
            lemma_restricted_matching(graph.adj@, adj@, pl, pr, var_index as int, value_idx);
        }
    }
    let mut l: usize = 0;
    while l < adj.len()
        invariant
            0 <= l <= adj@.len(),
            forall|k: int| 0 <= k < l ==> (#[trigger] adj@[k])@.len() > 0,
            full ==> variable_count == adj@.len() && exists|pl: Seq<Option<usize>>, pr: Seq<Option<usize>>|
                matching_ok(adj@, pl, pr) && count_some(pl) == variable_count,
            value_idx_of(*graph, value) == Some(value_idx),
            full == (variable_count == graph.adj@.len() && exists|pl: Seq<Option<usize>>, pr: Seq<Option<usize>>|
                matching_ok(graph.adj@, pl, pr) && count_some(pl) == variable_count && pl[var_index as int] == Some(value_idx)),
        decreases adj@.len() - l,
    {
        if adj[l].len() == 0 {
            proof {
                if full {
                    let (pl, pr) = choose|pl: Seq<Option<usize>>, pr: Seq<Option<usize>>|
                        matching_ok(adj@, pl, pr) && count_some(pl) == variable_count;
                    lemma_count_some_full(pl);
                    assert(pl[l as int] is Some);
                    assert(adj@[l as int]@.contains(pl[l as int].unwrap()));
                }
            }
            return false;
        }
        l = l + 1;
    }
    proof {
        assert forall|k: int, j: int| 0 <= k < adj@.len() && 0 <= j < adj@[k]@.len() implies #[trigger] adj@[k]@[j]
            < graph.value_count by {
            let row = graph.adj@[k]@;
            assert(adj@[k]@.contains(adj@[k]@[j]));
            row.lemma_filter_contains_rev(keep_pred(k == var_index, value_idx), adj@[k]@[j]);
        }
        if variable_count != graph.adj@.len() {
            let l = choose|l: int| 0 <= l < graph.adj@.len()
                && restricted_row(graph.adj@[l]@, l == var_index, value_idx).len() == 0;
            assert(adj@[l]@.len() > 0);
        }
    }
    let size = hopcroft_karp(&adj, variable_count, graph.value_count);
    proof {
        if full {
            let (pl, pr) = choose|pl: Seq<Option<usize>>, pr: Seq<Option<usize>>|
                matching_ok(adj@, pl, pr) && count_some(pl) == variable_count;
            if variable_count > 0 {
                assert(matching_ok(adj@, pl, pr));
            }
        }
        if size == variable_count {
            if variable_count == 0 {
                let pl = Seq::<Option<usize>>::empty();
                let pr = Seq::new(graph.value_count as nat, |i: int| None::<usize>);
                assert(matching_ok(adj@, pl, pr));
                assert(count_some(pl) == 0);
                assert(adj@.len() == graph.adj@.len() && (forall|l: int| 0 <= l < adj@.len() ==> (#[trigger] adj@[l])@ == restricted_row(
                    graph.adj@[l]@, l == var_index, value_idx)) && matching_ok(adj@, pl, pr) && count_some(pl) == variable_count);
            } else {
                let (pl, pr) = choose|pl: Seq<Option<usize>>, pr: Seq<Option<usize>>|
                    pr.len() == graph.value_count && matching_ok(adj@, pl, pr) && size == count_some(pl);
                assert(adj@.len() == graph.adj@.len() && (forall|l: int| 0 <= l < adj@.len() ==> (#[trigger] adj@[l])@ == restricted_row(
                    graph.adj@[l]@, l == var_index, value_idx)) && matching_ok(adj@, pl, pr) && count_some(pl) == variable_count);
            }
            assert forall|l: int| 0 <= l < graph.adj@.len() implies restricted_row(#[trigger] graph.adj@[l]@, l == var_index, value_idx).len() > 0 by {
                assert(adj@[l]@.len() > 0);
            }
        }
    }
    size == variable_count
}

/// A matching of the whole graph that pairs `var` with `v` is a matching of the graph
/// restricted so that only `var` may take `v`.
proof fn lemma_restricted_matching(
    adj: Seq<Vec<usize>>,
    adj2: Seq<Vec<usize>>,
    pl: Seq<Option<usize>>,
    pr: Seq<Option<usize>>,
    var: int,
    v: usize,
)
    requires
        matching_ok(adj, pl, pr),
        0 <= var < adj.len(),
        pl[var] == Some(v),
        adj2.len() == adj.len(),
        forall|l: int| 0 <= l < adj2.len() ==> (#[trigger] adj2[l])@ == restricted_row(adj[l]@, l == var, v),
    ensures
        exists|pl2: Seq<Option<usize>>, pr2: Seq<Option<usize>>| matching_ok(adj2, pl2, pr2) && count_some(pl2) == count_some(pl),
{
    assert forall|l: int| 0 <= l < pl.len() && (#[trigger] pl[l]) is Some implies adj2[l]@.contains(pl[l].unwrap()) by {
        let r = pl[l].unwrap();
        assert(adj[l]@.contains(r));
        let j = choose|j: int| 0 <= j < adj[l]@.len() && adj[l]@[j] == r;
        if l != var {
            assert(pr[r as int].unwrap() as int == l);
            assert(pr[v as int].unwrap() as int == var);
            assert(r != v);
        }
        assert(keep_pred(l == var, v)(adj[l]@[j]));
        adj[l]@.lemma_filter_contains(keep_pred(l == var, v), j);
    }
    assert(matching_ok(adj2, pl, pr));
}

/// Number of nodes not yet visited by Tarjan's search.
pub open spec fn count_none(index: Seq<Option<usize>>) -> nat
    decreases index.len(),
{
    if index.len() == 0 {
        0
    } else {
        count_none(index.drop_last()) + if index.last() is None { 1nat } else { 0nat }
    }
}

proof fn lemma_count_none_visit(index: Seq<Option<usize>>, k: int, v: usize)
    requires
        0 <= k < index.len(),
        index[k] is None,
    ensures
        count_none(index.update(k, Some(v))) + 1 == count_none(index),
    decreases index.len(),
{
    let u = index.update(k, Some(v));
    if k == index.len() - 1 {
        assert(u.drop_last() == index.drop_last());
    } else {
        assert(u.drop_last() == index.drop_last().update(k, Some(v)));
        lemma_count_none_visit(index.drop_last(), k, v);
        assert(u.last() == index.last());
    }
}

proof fn lemma_count_none_all(index: Seq<Option<usize>>)
    requires
        forall|i: int| 0 <= i < index.len() ==> index[i] is None,
    ensures
        count_none(index) == index.len(),
    decreases index.len(),
{
    if index.len() > 0 {
        let d = index.drop_last();
        assert forall|i: int| 0 <= i < d.len() implies d[i] is None by {
            assert(d[i] == index[i]);
        }
        lemma_count_none_all(d);
        assert(index.last() == index[index.len() - 1]);
    }
}

proof fn lemma_count_none_zero(index: Seq<Option<usize>>, k: int)
    requires
        count_none(index) == 0,
        0 <= k < index.len(),
    ensures
        index[k] is Some,
    decreases index.len(),
{
    if k < index.len() - 1 {
        assert(index.drop_last()[k] == index[k]);
        lemma_count_none_zero(index.drop_last(), k);
    }
}

/// Bookkeeping of Tarjan's strongly-connected-components search.
struct TarjanState {
    index: Vec<Option<usize>>,
    lowlink: Vec<usize>,
    stack: Vec<usize>,
    on_stack: Vec<bool>,
    component: Vec<usize>,
    next_index: usize,
    component_count: usize,
}

impl TarjanState {
    /// Consistency of the search state over `n` nodes.
    spec fn wf(&self, n: int) -> bool {
        &&& self.index@.len() == n
        &&& self.lowlink@.len() == n
        &&& self.on_stack@.len() == n
        &&& self.component@.len() == n
        &&& forall|k: int| 0 <= k < self.stack@.len() ==> (#[trigger] self.stack@[k]) < n
        &&& self.stack@.no_duplicates()
        &&& forall|x: int| 0 <= x < n ==> (#[trigger] self.on_stack@[x] <==> self.stack@.contains(x as usize))
        &&& forall|x: int| 0 <= x < n && #[trigger] self.on_stack@[x] ==> self.index@[x] is Some
        &&& self.next_index + count_none(self.index@) == n
        &&& self.component_count + self.stack@.len() <= self.next_index
        &&& forall|x: int| 0 <= x < n ==> (#[trigger] self.component@[x] == 0 || self.component@[x] < self.component_count)
    }

    /// Fresh state: no node visited, empty stack.
    fn new(node_count: usize) -> (s: Self)
        ensures
            s.wf(node_count as int),
            forall|x: int| 0 <= x < node_count ==> (#[trigger] s.index@[x]) is None,
    {
        let mut index: Vec<Option<usize>> = Vec::new();
        let mut lowlink: Vec<usize> = Vec::new();
        let mut on_stack: Vec<bool> = Vec::new();
        let mut component: Vec<usize> = Vec::new();
        let mut i: usize = 0;
        while i < node_count
            invariant
                0 <= i <= node_count,
                index@.len() == i,
                lowlink@.len() == i,
                on_stack@.len() == i,
                component@.len() == i,
                forall|x: int| 0 <= x < i ==> (#[trigger] index@[x]) is None,
                forall|x: int| 0 <= x < i ==> !(#[trigger] on_stack@[x]),
                forall|x: int| 0 <= x < i ==> #[trigger] component@[x] == 0,
            decreases node_count - i,
        {
            index.push(None);
            lowlink.push(0);
            on_stack.push(false);
            component.push(0);
            i = i + 1;
        }
        proof {
            lemma_count_none_all(index@);
        }
        TarjanState { index, lowlink, stack: Vec::new(), on_stack, component, next_index: 0, component_count: 0 }
    }

    /// Visits `node` and everything reachable from it that is not yet visited, and closes
    /// the component rooted at `node` when its low link equals its own index.
    fn strong_connect(&mut self, node: usize, adj: &[Vec<usize>])
        requires
            old(self).wf(adj@.len() as int),
            node < adj@.len(),
            adj_ok(adj@, adj@.len() as int),
            old(self).index@[node as int] is None,
        ensures
            final(self).wf(adj@.len() as int),
            final(self).index@[node as int] is Some,
            count_none(final(self).index@) < count_none(old(self).index@),
            forall|x: int| 0 <= x < adj@.len() && (#[trigger] old(self).index@[x]) is Some ==> final(self).index@[x] == old(self).index@[x],
            final(self).stack@.len() >= old(self).stack@.len(),
            forall|k: int| 0 <= k < old(self).stack@.len() ==> #[trigger] final(self).stack@[k] == old(self).stack@[k],
        decreases count_none(old(self).index@),
    {
        let ghost n = adj@.len() as int;
        let ghost entry_none = count_none(self.index@);
        let ghost entry_index = self.index@;
        let ghost entry_stack = self.stack@;
        let node_total = adj.len();
        assert(node_total == n);
        proof {
            lemma_count_none_visit(self.index@, node as int, self.next_index);
            assert(!self.on_stack@[node as int]);
            assert(!self.stack@.contains(node));
        }
        let idx = self.next_index;
        self.index.set(node, Some(idx));
        self.lowlink.set(node, idx);
        self.next_index = self.next_index + 1;
        let ghost l0 = self.stack@.len();
        self.stack.push(node);
        self.on_stack.set(node, true);
        proof {
            assert(self.stack@ == entry_stack.push(node));
            assert(self.stack@[l0 as int] == node);
            assert forall|x: int| 0 <= x < n implies (#[trigger] self.on_stack@[x] <==> self.stack@.contains(x as usize)) by {
                if x != node {
                    if entry_stack.contains(x as usize) {
                        let k = choose|k: int| 0 <= k < entry_stack.len() && entry_stack[k] == x as usize;
                        assert(self.stack@[k] == x as usize);
                    }
                    if self.stack@.contains(x as usize) {
                        let k = choose|k: int| 0 <= k < self.stack@.len() && self.stack@[k] == x as usize;
                        assert(k < l0);
                        assert(entry_stack[k] == x as usize);
                    }
                } else {
                    assert(self.stack@.contains(node));
                }
            }
            assert(self.stack@.no_duplicates()) by {
                assert forall|a: int, b: int| 0 <= a < b < self.stack@.len() implies self.stack@[a] != self.stack@[b] by {
                    if b == l0 {
                        assert(entry_stack.contains(self.stack@[a]));
                    } else {
                        assert(self.stack@[a] == entry_stack[a] && self.stack@[b] == entry_stack[b]);
                    }
                }
            }
        }
        let row = &adj[node];
        let mut i: usize = 0;
        while i < row.len()
            invariant
                0 <= i <= row@.len(),
                row == adj@[node as int],
                n == adj@.len(),
                n <= usize::MAX,
                node < n,
                adj_ok(adj@, n),
                self.wf(n),
                self.index@[node as int] == Some(idx),
                count_none(self.index@) < entry_none,
                entry_none == count_none(old(self).index@),
                forall|x: int| 0 <= x < n && (#[trigger] entry_index[x]) is Some ==> self.index@[x] == entry_index[x],
                self.stack@.len() > l0,
                self.stack@[l0 as int] == node,
                l0 == entry_stack.len(),
                forall|k: int| 0 <= k < l0 ==> #[trigger] self.stack@[k] == entry_stack[k],
            decreases row@.len() - i,
        {
            let successor = row[i];
            if self.index[successor].is_none() {
                let ghost st = self.stack@;
                self.strong_connect(successor, adj);
                proof {
                    assert(self.stack@[l0 as int] == st[l0 as int]);
                    assert forall|k: int| 0 <= k < l0 implies #[trigger] self.stack@[k] == entry_stack[k] by {
                        assert(self.stack@[k] == st[k]);
                    }
                }
                let low = if self.lowlink[node] <= self.lowlink[successor] { self.lowlink[node] } else { self.lowlink[successor] };
                self.lowlink.set(node, low);
            } else if self.on_stack[successor] {
                let succ_index = match self.index[successor] {
                    Some(v) => v,
                    None => 0,
                };
                let low = if self.lowlink[node] <= succ_index { self.lowlink[node] } else { succ_index };
                self.lowlink.set(node, low);
            }
            i = i + 1;
        }
        if self.lowlink[node] == idx {
            let ghost cc = self.component_count;
            loop
                invariant_except_break
                    self.stack@.len() > l0,
                    self.stack@[l0 as int] == node,
                invariant
                    n == adj@.len(),
                    n <= usize::MAX,
                    node < n,
                    self.index@.len() == n,
                    self.lowlink@.len() == n,
                    self.on_stack@.len() == n,
                    self.component@.len() == n,
                    forall|k: int| 0 <= k < self.stack@.len() ==> (#[trigger] self.stack@[k]) < n,
                    self.stack@.no_duplicates(),
                    forall|x: int| 0 <= x < n ==> (#[trigger] self.on_stack@[x] <==> self.stack@.contains(x as usize)),
                    forall|x: int| 0 <= x < n && #[trigger] self.on_stack@[x] ==> self.index@[x] is Some,
                    self.next_index + count_none(self.index@) == n,
                    self.component_count == cc,
                    cc + self.stack@.len() <= self.next_index,
                    forall|x: int| 0 <= x < n ==> (#[trigger] self.component@[x] == 0 || self.component@[x] <= cc),
                    self.index@[node as int] == Some(idx),
                    count_none(self.index@) < entry_none,
                    forall|x: int| 0 <= x < n && (#[trigger] entry_index[x]) is Some ==> self.index@[x] == entry_index[x],
                    l0 == entry_stack.len(),
                    forall|k: int| 0 <= k < l0 ==> #[trigger] self.stack@[k] == entry_stack[k],
                ensures
                    self.stack@.len() == l0,
                    self.index@.len() == n,
                    self.lowlink@.len() == n,
                    self.on_stack@.len() == n,
                    self.component@.len() == n,
                    forall|k: int| 0 <= k < self.stack@.len() ==> (#[trigger] self.stack@[k]) < n,
                    self.stack@.no_duplicates(),
                    forall|x: int| 0 <= x < n ==> (#[trigger] self.on_stack@[x] <==> self.stack@.contains(x as usize)),
                    forall|x: int| 0 <= x < n && #[trigger] self.on_stack@[x] ==> self.index@[x] is Some,
                    self.next_index + count_none(self.index@) == n,
                    self.component_count == cc,
                    cc + l0 + 1 <= self.next_index,
                    forall|x: int| 0 <= x < n ==> (#[trigger] self.component@[x] == 0 || self.component@[x] <= cc),
                    self.index@[node as int] == Some(idx),
                    count_none(self.index@) < entry_none,
                    forall|x: int| 0 <= x < n && (#[trigger] entry_index[x]) is Some ==> self.index@[x] == entry_index[x],
                    forall|k: int| 0 <= k < l0 ==> #[trigger] self.stack@[k] == entry_stack[k],
                decreases self.stack@.len(),
            {
                let ghost before = self.stack@;
                let top = match self.stack.pop() {
                    Some(t) => t,
                    None => node,
                };
                proof {
                    assert(before.drop_last() == self.stack@);
                    assert(before.last() == top);
                    assert forall|x: int| 0 <= x < n && x != top implies (#[trigger] self.stack@.contains(x as usize) <==> before.contains(x as usize)) by {
                        if before.contains(x as usize) {
                            let k = choose|k: int| 0 <= k < before.len() && before[k] == x as usize;
                            assert(k != before.len() - 1);
                            assert(self.stack@[k] == x as usize);
                        }
                    }
                    assert(!self.stack@.contains(top)) by {
                        if self.stack@.contains(top) {
                            let k = choose|k: int| 0 <= k < self.stack@.len() && self.stack@[k] == top;
                            assert(before[k] == before[before.len() - 1]);
                        }
                    }
                    assert(self.stack@.no_duplicates()) by {
                        assert forall|a: int, b: int| 0 <= a < b < self.stack@.len() implies self.stack@[a] != self.stack@[b] by {
                            assert(self.stack@[a] == before[a] && self.stack@[b] == before[b]);
                        }
                    }
                    assert(top < n);
                    assert(self.on_stack@[top as int]);
                }
                self.on_stack.set(top, false);
                self.component.set(top, self.component_count);
                proof {
                    assert forall|x: int| 0 <= x < n implies (#[trigger] self.on_stack@[x] <==> self.stack@.contains(x as usize)) by {
                        if x != top {
                        }
                    }
                    assert forall|k: int| 0 <= k < self.stack@.len() implies (#[trigger] self.stack@[k]) < n by {
                        assert(self.stack@[k] == before[k]);
                    }
                }
                if top == node {
                    proof {
                        assert(before[l0 as int] == node);
                        assert(before.len() - 1 == l0) by {
                            if before.len() - 1 != l0 {
                                assert(before[before.len() - 1] == node);
                                assert(false);
                            }
                        }
                    }
                    break;
                }
                proof {
                    assert(self.stack@.len() > l0) by {
                        if self.stack@.len() == l0 {
                            assert(before[l0 as int] == top);
                        }
                    }
                    assert(self.stack@[l0 as int] == before[l0 as int]);
                    assert forall|k: int| 0 <= k < l0 implies #[trigger] self.stack@[k] == entry_stack[k] by {
                        assert(self.stack@[k] == before[k]);
                    }
                }
            }
            self.component_count = self.component_count + 1;
        }
    }
}

/// Component identifier of every node of the directed graph `adj` restricted to the
/// first `node_count` nodes; each identifier is below `node_count`.
pub fn tarjan_scc(adj: &[Vec<usize>], node_count: usize) -> (component: Vec<usize>)
    requires
        adj@.len() == node_count,
        adj_ok(adj@, node_count as int),
    ensures
        component@.len() == node_count,
        forall|x: int| 0 <= x < node_count ==> #[trigger] component@[x] < node_count,
{
    let mut state = TarjanState::new(node_count);
    let mut node: usize = 0;
    while node < node_count
        invariant
            0 <= node <= node_count,
            adj@.len() == node_count,
            adj_ok(adj@, node_count as int),
            state.wf(node_count as int),
            forall|x: int| 0 <= x < node && x < node_count ==> (#[trigger] state.index@[x]) is Some,
        decreases node_count - node,
    {
        if state.index[node].is_none() {
            let ghost before = state.index@;
            state.strong_connect(node, adj);
            proof {
                assert forall|x: int| 0 <= x < node + 1 && x < node_count implies (#[trigger] state.index@[x]) is Some by {
                    if x < node {
                        assert(before[x] is Some);
                    }
                }
            }
        }
        node = node + 1;
    }
    proof {
        assert(count_none(state.index@) == 0) by {
            if count_none(state.index@) > 0 {
                lemma_count_none_some(state.index@);
            }
        }
        assert forall|x: int| 0 <= x < node_count implies #[trigger] state.component@[x] < node_count by {
            assert(state.component@[x] == 0 || state.component@[x] < state.component_count);
        }
    }
    state.component
}

proof fn lemma_count_none_some(index: Seq<Option<usize>>)
    requires
        count_none(index) > 0,
    ensures
        exists|k: int| 0 <= k < index.len() && index[k] is None,
    decreases index.len(),
{
    if index.last() is None {
        assert(index[index.len() - 1] is None);
    } else {
        lemma_count_none_some(index.drop_last());
        let k = choose|k: int| 0 <= k < index.drop_last().len() && index.drop_last()[k] is None;
        assert(index[k] is None);
    }
}

/// Régin's support test: a value is supported for a variable matched to `matched` when
/// it is that match, when it is free in the matching, or when it lies in the same
/// strongly connected component of the value graph.
pub fn regin_supports_value(
    value_idx: usize,
    matched: usize,
    pair_right: &[Option<usize>],
    matched_component: usize,
    components: &[usize],
) -> (r: bool)
    requires
        value_idx < pair_right@.len(),
        value_idx < components@.len(),
    ensures
        r == (value_idx == matched || pair_right@[value_idx as int] is None || components@[value_idx as int]
            == matched_component),
{
    if value_idx == matched {
        return true;
    }
    if pair_right[value_idx].is_none() {
        return true;
    }
    components[value_idx] == matched_component
}

/// Indices of distinct values are distinct and below the number of indexed values.
pub open spec fn index_wf(m: Map<i32, usize>) -> bool {
    &&& m.dom().finite()
    &&& forall|v: i32| #[trigger] m.contains_key(v) ==> (m[v] as int) < m.len()
    &&& forall|v: i32, w: i32| #[trigger] m.contains_key(v) && #[trigger] m.contains_key(w) && m[v] == m[w] ==> v == w
}

/// `g` is the graph of the domains of `vars` in `s`: every value of some domain has an
/// index, and each variable is adjacent to the indices of its values, in increasing
/// order of the values.
pub open spec fn graph_of(s: Seq<Set<int>>, vars: Seq<VariableId>, g: BipartiteGraph) -> bool {
    let m = g.value_index@;
    &&& g.adj@.len() == vars.len()
    &&& g.value_count == m.len()
    &&& index_wf(m)
    &&& forall|v: i32| #[trigger] m.contains_key(v) <==> domain_union(s, vars).contains(v as int)
    &&& forall|l: int| 0 <= l < vars.len() ==> (#[trigger] g.adj@[l])@.len() == sorted_elems(s[vars[l].index as int]).len()
    &&& forall|l: int|
        0 <= l < vars.len() ==> sorted_listing(sorted_elems(#[trigger] s[vars[l].index as int]), s[vars[l].index as int])
    &&& forall|l: int, k: int| #![trigger g.adj@[l]@[k]] 0 <= l < vars.len() && 0 <= k < g.adj@[l]@.len() ==> {
        let x = sorted_elems(s[vars[l].index as int])[k];
        &&& g.adj@[l]@[k] == m[x as i32]
        &&& m.contains_key(x as i32)
        &&& s[vars[l].index as int].contains(x)
    }
}

/// Builds the variable/value graph of the domains of `variables`: values get indices
/// in order of first appearance, scanning the variables in order and each domain in
/// increasing order.
pub fn build_bipartite_graph(store: &DomainStore, variables: &Vec<VariableId>) -> (g: BipartiteGraph)
    requires
        vars_in_range(variables@, store@.len()),
    ensures
        graph_of(store@, variables@, g),
{
    let ghost s = store@;
    let mut value_index: HashMap<i32, usize> = HashMap::new();
    let mut adj: Vec<Vec<usize>> = Vec::new();
    let mut left: usize = 0;
    proof {
        assert(value_index@ =~= Map::<i32, usize>::empty());
    }
    while left < variables.len()
        invariant
            0 <= left <= variables@.len(),
            s == store@,
            vars_in_range(variables@, s.len()),
            adj@.len() == left,
            index_wf(value_index@),
            forall|v: i32| #[trigger] value_index@.contains_key(v) <==> domain_union(s, variables@.take(left as int)).contains(v as int),
            forall|l: int| 0 <= l < left ==> (#[trigger] adj@[l])@.len() == sorted_elems(s[variables@[l].index as int]).len(),
            forall|l: int|
                0 <= l < left ==> sorted_listing(
                    sorted_elems(#[trigger] s[variables@[l].index as int]),
                    s[variables@[l].index as int],
                ),
            forall|l: int, k: int| 0 <= l < left && 0 <= k < adj@[l]@.len() ==> #[trigger] adj@[l]@[k]
                == value_index@[sorted_elems(s[variables@[l].index as int])[k] as i32],
            forall|l: int, k: int| 0 <= l < left && 0 <= k < adj@[l]@.len() ==> value_index@.contains_key(
                #[trigger] sorted_elems(s[variables@[l].index as int])[k] as i32,
            ) && s[variables@[l].index as int].contains(sorted_elems(s[variables@[l].index as int])[k]),
        decreases variables@.len() - left,
    {
        let var = variables[left];
        let values = collect_values(store, var);
        let ghost d = s[var.index as int];
        proof {
            let q = values@.map_values(|v: i32| v as int);
            assert forall|x: int| q.contains(x) <==> d.contains(x) by {
                if q.contains(x) {
                    let k = choose|k: int| 0 <= k < q.len() && q[k] == x;
                    assert(values@[k] == x);
                    assert(seq_has(values@, x));
                }
                if d.contains(x) {
                    assert(seq_has(values@, x));
                    let k = choose|k: int| 0 <= k < values@.len() && values@[k] == x;
                    assert(q[k] == x);
                }
            }
            assert(sorted_listing(sorted_elems(d), d));
        }
        let ghost start = value_index@;
        let mut row: Vec<usize> = Vec::new();
        let mut t: usize = 0;
        while t < values.len()
            invariant
                0 <= t <= values@.len(),
                values@.map_values(|v: i32| v as int) == sorted_elems(d),
                forall|y: int| seq_has(values@, y) <==> d.contains(y),
                index_wf(value_index@),
                forall|v: i32| #[trigger] start.contains_key(v) ==> value_index@.contains_key(v) && value_index@[v] == start[v],
                forall|v: i32| #[trigger] value_index@.contains_key(v) <==> (start.contains_key(v) || seq_has(values@.take(t as int), v as int)),
                row@.len() == t,
                forall|k: int| 0 <= k < t ==> #[trigger] row@[k] == value_index@[values@[k]],
                forall|k: int| 0 <= k < t ==> value_index@.contains_key(#[trigger] values@[k]),
            decreases values@.len() - t,
        {
            let value = values[t];
            let ghost before = value_index@;
            let right = match value_index.get(&value) {
                Some(idx) => *idx,
                None => {
                    let next = value_index.len();
                    value_index.insert(value, next);
                    proof {
                        assert(!before.contains_key(value));
                        assert(value_index@ == before.insert(value, next));
                        assert(value_index@.len() == before.len() + 1);
                        assert forall|v: i32| #[trigger] value_index@.contains_key(v) implies (value_index@[v] as int) < value_index@.len() by {
                            if v != value {
                                assert(before.contains_key(v));
                            }
                        }
                        assert forall|v: i32, w: i32| #[trigger] value_index@.contains_key(v) && #[trigger] value_index@.contains_key(w)
                            && value_index@[v] == value_index@[w] implies v == w by {
                            if v != value && w != value {
                                assert(before.contains_key(v) && before.contains_key(w));
                            } else if v == value && w != value {
                                assert(before.contains_key(w));
                                assert((before[w] as int) < before.len());
                            } else if v != value && w == value {
                                assert(before.contains_key(v));
                                assert((before[v] as int) < before.len());
                            }
                        }
                    }
                    next
                },
            };
            row.push(right);
            proof {
                lemma_seq_has_take_step(values@, t as int);
                assert forall|k: int| 0 <= k < t + 1 implies #[trigger] row@[k] == value_index@[values@[k]] by {
                    if k < t {
                        assert(before.contains_key(values@[k]));
                    }
                }
                assert forall|v: i32| #[trigger] value_index@.contains_key(v) <==> (start.contains_key(v) || seq_has(values@.take(t + 1), v as int)) by {
                    assert(seq_has(values@.take(t + 1), v as int) <==> (seq_has(values@.take(t as int), v as int) || v == value));
                    if before.contains_key(v) {
                        assert(value_index@.contains_key(v));
                    }
                }
            }
            t = t + 1;
        }
        adj.push(row);
        proof {
            assert(values@.take(t as int) =~= values@);
            let pre = variables@.take(left as int);
            let post = variables@.take(left + 1);
            assert forall|v: i32| #[trigger] value_index@.contains_key(v) <==> domain_union(s, post).contains(v as int) by {
                if domain_union(s, post).contains(v as int) {
                    let i = choose|i: int| 0 <= i < post.len() && s[post[i].index as int].contains(v as int);
                    if i < left {
                        assert(pre[i] == post[i]);
                        assert(domain_union(s, pre).contains(v as int));
                    } else {
                        assert(d.contains(v as int));
                        assert(seq_has(values@, v as int));
                    }
                }
                if start.contains_key(v) {
                    let i = choose|i: int| 0 <= i < pre.len() && s[pre[i].index as int].contains(v as int);
                    assert(pre[i] == post[i]);
                }
                if seq_has(values@, v as int) {
                    assert(d.contains(v as int));
                    assert(post[left as int] == var);
                }
            }
            assert forall|l: int| 0 <= l < left + 1 implies (#[trigger] adj@[l])@.len() == sorted_elems(s[variables@[l].index as int]).len() by {
                if l == left {
                    assert(values@.map_values(|v: i32| v as int).len() == values@.len());
                }
            }
            assert forall|l: int, k: int| 0 <= l < left + 1 && 0 <= k < adj@[l]@.len() implies #[trigger] adj@[l]@[k]
                == value_index@[sorted_elems(s[variables@[l].index as int])[k] as i32] && value_index@.contains_key(
                sorted_elems(s[variables@[l].index as int])[k] as i32,
            ) && s[variables@[l].index as int].contains(sorted_elems(s[variables@[l].index as int])[k]) by {
                if l < left {
                    let key = sorted_elems(s[variables@[l].index as int])[k] as i32;
                    assert(start.contains_key(key));
                } else {
                    assert(sorted_elems(d)[k] == values@[k] as int);
                    assert(seq_has(values@, values@[k] as int));
                }
            }
        }
        left = left + 1;
    }
    proof {
        assert(variables@.take(left as int) =~= variables@);
        assert forall|l: int, k: int| #![trigger adj@[l]@[k]] 0 <= l < variables@.len() && 0 <= k < adj@[l]@.len() implies {
            let x = sorted_elems(s[variables@[l].index as int])[k];
            &&& adj@[l]@[k] == value_index@[x as i32]
            &&& value_index@.contains_key(x as i32)
            &&& s[variables@[l].index as int].contains(x)
        } by {
            assert(value_index@.contains_key(sorted_elems(s[variables@[l].index as int])[k] as i32));
        }
    }
    let value_count = value_index.len();
    BipartiteGraph { adj, value_index, value_count }
}

/// `vals` gives each position of `vars` a value of its domain, all different.
pub open spec fn distinct_choice(s: Seq<Set<int>>, vars: Seq<VariableId>, vals: Seq<int>) -> bool {
    &&& vals.len() == vars.len()
    &&& forall|l: int| 0 <= l < vars.len() ==> s[vars[l].index as int].contains(#[trigger] vals[l])
    &&& forall|l: int, k: int| 0 <= l < vars.len() && 0 <= k < vars.len() && l != k ==> #[trigger] vals[l] != #[trigger] vals[k]
}

/// A matching that covers every left vertex counts them all.
proof fn lemma_count_some_full(pl: Seq<Option<usize>>)
    requires
        count_some(pl) == pl.len(),
    ensures
        forall|l: int| 0 <= l < pl.len() ==> (#[trigger] pl[l]) is Some,
    decreases pl.len(),
{
    if pl.len() > 0 {
        lemma_count_some_le(pl.drop_last());
        assert(pl.last() is Some);
        lemma_count_some_full(pl.drop_last());
        assert forall|l: int| 0 <= l < pl.len() implies (#[trigger] pl[l]) is Some by {
            if l < pl.len() - 1 {
                assert(pl.drop_last()[l] == pl[l]);
            }
        }
    }
}

/// A matching of every variable in a subgraph of the graph of the domains gives each
/// variable a distinct value of its domain: the value whose index it is matched to.
proof fn lemma_matching_gives_choice(
    s: Seq<Set<int>>,
    vars: Seq<VariableId>,
    g: BipartiteGraph,
    adj2: Seq<Vec<usize>>,
    pl: Seq<Option<usize>>,
    pr: Seq<Option<usize>>,
)
    requires
        graph_of(s, vars, g),
        adj2.len() == vars.len(),
        forall|l: int, j: int| 0 <= l < adj2.len() && 0 <= j < adj2[l]@.len() ==> g.adj@[l]@.contains(#[trigger] adj2[l]@[j]),
        matching_ok(adj2, pl, pr),
        count_some(pl) == vars.len(),
    ensures
        exists|vals: Seq<int>| {
            &&& distinct_choice(s, vars, vals)
            &&& forall|l: int| 0 <= l < vars.len() ==> g.value_index@.contains_key(#[trigger] vals[l] as i32)
                && g.value_index@[vals[l] as i32] == pl[l].unwrap()
        },
{
    let m = g.value_index@;
    lemma_count_some_full(pl);
    assert forall|l: int| #![trigger vars[l]] 0 <= l < vars.len() implies exists|x: int| #[trigger] s[vars[l].index as int].contains(x) && m.contains_key(
        x as i32,
    ) && m[x as i32] == pl[l].unwrap() by {
        assert(pl[l] is Some);
        let r = pl[l].unwrap();
        assert(adj2[l]@.contains(r));
        let j = choose|j: int| 0 <= j < adj2[l]@.len() && adj2[l]@[j] == r;
        assert(g.adj@[l]@.contains(adj2[l]@[j]));
        let k = choose|k: int| 0 <= k < g.adj@[l]@.len() && g.adj@[l]@[k] == r;
        let x = sorted_elems(s[vars[l].index as int])[k];
        assert(g.adj@[l]@[k] == m[x as i32]);
        assert(s[vars[l].index as int].contains(x));
    }
    let vals = Seq::new(
        vars.len(),
        |l: int| choose|x: int| #[trigger] s[vars[l].index as int].contains(x) && m.contains_key(x as i32) && m[x as i32] == pl[l].unwrap(),
    );
    assert forall|l: int| 0 <= l < vars.len() implies s[vars[l].index as int].contains(#[trigger] vals[l]) && m.contains_key(
        vals[l] as i32,
    ) && m[vals[l] as i32] == pl[l].unwrap() by {
        assert(exists|x: int| #[trigger] s[vars[l].index as int].contains(x) && m.contains_key(x as i32) && m[x as i32] == pl[l].unwrap());
    }
    assert forall|l: int, k: int| 0 <= l < vars.len() && 0 <= k < vars.len() && l != k implies #[trigger] vals[l] != #[trigger] vals[k] by {
        assert(s[vars[l].index as int].contains(vals[l]) && m[vals[l] as i32] == pl[l].unwrap());
        assert(s[vars[k].index as int].contains(vals[k]) && m[vals[k] as i32] == pl[k].unwrap());
        assert(pl[l] is Some && pl[k] is Some);
        let rl = pl[l].unwrap();
        let rk = pl[k].unwrap();
        assert(pr[rl as int].unwrap() as int == l);
        assert(pr[rk as int].unwrap() as int == k);
    }
    assert(distinct_choice(s, vars, vals));
}

/// Matching every left vertex counts them all.
proof fn lemma_count_some_all(pl: Seq<Option<usize>>)
    requires
        forall|l: int| 0 <= l < pl.len() ==> (#[trigger] pl[l]) is Some,
    ensures
        count_some(pl) == pl.len(),
    decreases pl.len(),
{
    if pl.len() > 0 {
        let d = pl.drop_last();
        assert forall|l: int| 0 <= l < d.len() implies (#[trigger] d[l]) is Some by {
            assert(d[l] == pl[l]);
        }
        lemma_count_some_all(d);
        assert(pl.last() == pl[pl.len() - 1]);
    }
}

/// A distinct choice of values gives a matching of the graph of the domains that
/// covers every variable.
proof fn lemma_choice_gives_matching(s: Seq<Set<int>>, vars: Seq<VariableId>, g: BipartiteGraph, vals: Seq<int>)
    requires
        graph_of(s, vars, g),
        distinct_choice(s, vars, vals),
        vars.len() < usize::MAX,
        forall|l: int| 0 <= l < vars.len() ==> in_i32_range(#[trigger] s[vars[l].index as int]),
    ensures
        exists|pl: Seq<Option<usize>>, pr: Seq<Option<usize>>|
            pr.len() == g.value_count && matching_ok(g.adj@, pl, pr) && count_some(pl) == vars.len() && forall|l: int|
                0 <= l < vars.len() ==> #[trigger] pl[l] == Some(g.value_index@[vals[l] as i32]),
        forall|l: int| 0 <= l < vars.len() ==> g.value_index@.contains_key(#[trigger] vals[l] as i32),
{
    let m = g.value_index@;
    let n = vars.len();
    assert forall|l: int| 0 <= l < n implies #[trigger] m.contains_key(vals[l] as i32) && g.adj@[l]@.contains(
        m[vals[l] as i32],
    ) by {
        let d = s[vars[l].index as int];
        assert(d.contains(vals[l]));
        assert(sorted_listing(sorted_elems(d), d));
        assert(sorted_elems(d).contains(vals[l]));
        let k = choose|k: int| 0 <= k < sorted_elems(d).len() && sorted_elems(d)[k] == vals[l];
        assert(g.adj@[l]@.len() == sorted_elems(d).len());
        assert(g.adj@[l]@[k] == m[vals[l] as i32]);
    }
    let pl = Seq::new(n, |l: int| Some(m[vals[l] as i32]));
    let owner = |r: int| choose|l: int| 0 <= l < n && m[vals[l] as i32] == r;
    let pr = Seq::new(
        g.value_count as nat,
        |r: int| if exists|l: int| 0 <= l < n && m[vals[l] as i32] == r { Some(owner(r) as usize) } else { None },
    );
    assert forall|l: int, k: int| 0 <= l < n && 0 <= k < n && m[vals[l] as i32] == m[vals[k] as i32] implies l == k by {
        assert(m.contains_key(vals[l] as i32) && m.contains_key(vals[k] as i32));
        assert(s[vars[l].index as int].contains(vals[l]));
        assert(s[vars[k].index as int].contains(vals[k]));
        assert(vals[l] as i32 == vals[k] as i32);
        if l != k {
            assert(vals[l] != vals[k]);
        }
    }
    assert(matching_ok(g.adj@, pl, pr)) by {
        assert forall|l: int| 0 <= l < pl.len() && (#[trigger] pl[l]) is Some implies {
            let r = pl[l].unwrap();
            &&& (r as int) < pr.len()
            &&& g.adj@[l]@.contains(r)
            &&& pr[r as int] is Some
            &&& pr[r as int].unwrap() as int == l
        } by {
            let r = m[vals[l] as i32];
            assert(pl[l] == Some(r));
            assert(m.contains_key(vals[l] as i32));
            assert((r as int) < m.len());
            assert(exists|x: int| 0 <= x < n && m[vals[x] as i32] == r as int);
            let o = owner(r as int);
            assert(0 <= o < n && m[vals[o] as i32] == r);
            assert(o == l);
            assert(pr[r as int] == Some(o as usize));
        }
        assert forall|r: int| 0 <= r < pr.len() && r != -1 && (#[trigger] pr[r]) is Some implies {
            let l = pr[r].unwrap();
            &&& (l as int) < pl.len()
            &&& pl[l as int] is Some
            &&& pl[l as int].unwrap() as int == r
        } by {
            assert(exists|x: int| 0 <= x < n && m[vals[x] as i32] == r);
            let o = owner(r);
            assert(0 <= o < n && m[vals[o] as i32] == r);
            assert(pr[r] == Some(o as usize));
            assert(pl[o] == Some(m[vals[o] as i32]));
        }
    }
    lemma_count_some_all(pl);
}

/// Whether every variable can be assigned a distinct value of its domain, decided by
/// a maximum matching of the variable/value graph.
pub fn has_perfect_matching(store: &DomainStore, variables: &Vec<VariableId>) -> (r: bool)
    requires
        vars_in_range(variables@, store@.len()),
        variables@.len() < usize::MAX,
    ensures
        variables@.len() == 0 ==> r,
        r <==> exists|vals: Seq<int>| distinct_choice(store@, variables@, vals),
{
    if variables.len() == 0 {
        proof {
            assert(distinct_choice(store@, variables@, Seq::<int>::empty()));
        }
        return true;
    }
    store.assert_in_range();
    let graph = build_bipartite_graph(store, variables);
    proof {
        lemma_graph_adj_ok(store@, variables@, graph);
    }
    let size = hopcroft_karp(&graph.adj, variables.len(), graph.value_count);
    proof {
        if exists|vals: Seq<int>| distinct_choice(store@, variables@, vals) {
            let vals = choose|vals: Seq<int>| distinct_choice(store@, variables@, vals);
            assert forall|l: int| 0 <= l < variables@.len() implies in_i32_range(#[trigger] store@[variables@[l].index as int]) by {
                assert(store@[variables@[l].index as int] == store@[variables@[l].index as int]);
            }
            lemma_choice_gives_matching(store@, variables@, graph, vals);
            let (pl, pr) = choose|pl: Seq<Option<usize>>, pr: Seq<Option<usize>>|
                pr.len() == graph.value_count && matching_ok(graph.adj@, pl, pr) && count_some(pl) == variables@.len();
            assert(matching_ok(graph.adj@, pl, pr));
        }
        if size == variables.len() {
            let (pl, pr) = choose|pl: Seq<Option<usize>>, pr: Seq<Option<usize>>|
                pr.len() == graph.value_count && matching_ok(graph.adj@, pl, pr) && size == count_some(pl);
            lemma_matching_gives_choice(store@, variables@, graph, graph.adj@, pl, pr);
        }
    }
    size == variables.len()
}

/// The graph of the domains names only indexed values.
proof fn lemma_graph_adj_ok(s: Seq<Set<int>>, vars: Seq<VariableId>, g: BipartiteGraph)
    requires
        graph_of(s, vars, g),
    ensures
        adj_ok(g.adj@, g.value_count as int),
{
    assert forall|l: int, j: int| 0 <= l < g.adj@.len() && 0 <= j < g.adj@[l]@.len() implies #[trigger] g.adj@[l]@[j]
        < g.value_count by {
        assert(g.adj@.len() == vars.len());
        assert(0 <= l < vars.len());
        let x = sorted_elems(s[vars[l].index as int])[j];
        assert(g.adj@[l]@[j] == g.value_index@[x as i32]);
        assert(g.value_index@.contains_key(x as i32));
    }
}

/// Whether `var` can take `value` while every variable of `variables` takes a distinct
/// value of its domain; the first position of `var` in `variables` is pinned to `value`.
pub fn value_in_some_matching(store: &DomainStore, variables: &Vec<VariableId>, var: VariableId, value: i32) -> (r: bool)
    requires
        vars_in_range(variables@, store@.len()),
        var.index < store@.len(),
        variables@.len() < usize::MAX,
    ensures
        !store@[var.index as int].contains(value as int) ==> !r,
        !in_list(variables@, var.index as int) ==> !r,
        r <==> exists|vals: Seq<int>, l: int| {
            &&& distinct_choice(store@, variables@, vals)
            &&& 0 <= l < variables@.len()
            &&& variables@[l] == var
            &&& vals[l] == value
        },
{
    let ghost some = exists|vals: Seq<int>, l: int| {
        &&& distinct_choice(store@, variables@, vals)
        &&& 0 <= l < variables@.len()
        &&& variables@[l] == var
        &&& vals[l] == value
    };
    if !store.contains(var, value) {
        proof {
            if some {
                let (vals, l) = choose|vals: Seq<int>, l: int| {
                    &&& distinct_choice(store@, variables@, vals)
                    &&& 0 <= l < variables@.len()
                    &&& variables@[l] == var
                    &&& vals[l] == value
                };
                assert(store@[variables@[l].index as int].contains(vals[l]));
            }
        }
        return false;
    }
    let mut pos: usize = 0;
    while pos < variables.len() && variables[pos].index != var.index
        invariant
            0 <= pos <= variables@.len(),
            forall|k: int| 0 <= k < pos ==> (#[trigger] variables@[k]).index != var.index,
        decreases variables@.len() - pos,
    {
        pos = pos + 1;
    }
    if pos == variables.len() {
        proof {
            if some {
                let (vals, l) = choose|vals: Seq<int>, l: int| {
                    &&& distinct_choice(store@, variables@, vals)
                    &&& 0 <= l < variables@.len()
                    &&& variables@[l] == var
                    &&& vals[l] == value
                };
                assert(variables@[l].index == var.index);
            }
        }
        return false;
    }
    store.assert_in_range();
    let graph = build_bipartite_graph(store, variables);
    proof {
        lemma_graph_adj_ok(store@, variables@, graph);
        if some {
            let (vals, l) = choose|vals: Seq<int>, l: int| {
                &&& distinct_choice(store@, variables@, vals)
                &&& 0 <= l < variables@.len()
                &&& variables@[l] == var
                &&& vals[l] == value
            };
            let p = pos as int;
            let vals2 = vals.update(p, vals[l]).update(l, vals[p]);
            assert(variables@[p].index == var.index);
            assert(distinct_choice(store@, variables@, vals2)) by {
                assert forall|a: int| 0 <= a < variables@.len() implies store@[variables@[a].index as int].contains(#[trigger] vals2[a]) by {
                    if a == l {
                        assert(vals2[a] == vals[p]);
                    } else if a == p {
                        assert(vals2[a] == vals[l]);
                    } else {
                        assert(vals2[a] == vals[a]);
                    }
                }
                assert forall|a: int, b: int| 0 <= a < variables@.len() && 0 <= b < variables@.len() && a != b implies #[trigger] vals2[a]
                    != #[trigger] vals2[b] by {
                    let ia = if a == l { p } else if a == p { l } else { a };
                    let ib = if b == l { p } else if b == p { l } else { b };
                    assert(vals2[a] == vals[ia]);
                    assert(vals2[b] == vals[ib]);
                    assert(ia != ib);
                    assert(vals[ia] != vals[ib]);
                }
            }
            assert forall|k: int| 0 <= k < variables@.len() implies in_i32_range(#[trigger] store@[variables@[k].index as int]) by {
                assert(store@[variables@[k].index as int] == store@[variables@[k].index as int]);
            }
            lemma_choice_gives_matching(store@, variables@, graph, vals2);
            assert(vals2[p] == value);
            assert(graph.value_index@.contains_key(vals2[p] as i32));
            assert(value_idx_of(graph, value) == Some(graph.value_index@[value]));
            let (pl, pr) = choose|pl: Seq<Option<usize>>, pr: Seq<Option<usize>>|
                pr.len() == graph.value_count && matching_ok(graph.adj@, pl, pr) && count_some(pl) == variables@.len() && forall|k: int|
                    0 <= k < variables@.len() ==> #[trigger] pl[k] == Some(graph.value_index@[vals2[k] as i32]);
            assert(pl[p] == Some(graph.value_index@[vals2[p] as i32]));
        }
    }
    let r = value_supported_in_graph(&graph, variables.len(), pos, value);
    proof {
        if r {
            let v = value_idx_of(graph, value).unwrap();
            let (adj2, pl, pr) = choose|adj2: Seq<Vec<usize>>, pl: Seq<Option<usize>>, pr: Seq<Option<usize>>|
                adj2.len() == graph.adj@.len() && (forall|l: int| 0 <= l < adj2.len() ==> (#[trigger] adj2[l])@ == restricted_row(
                    graph.adj@[l]@,
                    l == pos,
                    v,
                )) && matching_ok(adj2, pl, pr) && count_some(pl) == variables@.len();
            assert forall|l: int, j: int| 0 <= l < adj2.len() && 0 <= j < adj2[l]@.len() implies graph.adj@[l]@.contains(
                #[trigger] adj2[l]@[j],
            ) by {
                assert(adj2[l]@.contains(adj2[l]@[j]));
                graph.adj@[l]@.lemma_filter_contains_rev(keep_pred(l == pos, v), adj2[l]@[j]);
            }
            lemma_matching_gives_choice(store@, variables@, graph, adj2, pl, pr);
            let vals = choose|vals: Seq<int>| {
                &&& distinct_choice(store@, variables@, vals)
                &&& forall|l: int| 0 <= l < variables@.len() ==> graph.value_index@.contains_key(#[trigger] vals[l] as i32)
                    && graph.value_index@[vals[l] as i32] == pl[l].unwrap()
            };
            let p = pos as int;
            lemma_count_some_full(pl);
            assert(pl[p] is Some);
            let rp = pl[p].unwrap();
            assert(adj2[p]@.contains(rp));
            graph.adj@[p]@.lemma_filter_contains_rev(keep_pred(true, v), rp);
            assert(rp == v);
            assert(graph.value_index@.contains_key(vals[p] as i32));
            assert(graph.value_index@.contains_key(value));
            assert(vals[p] as i32 == value);
            assert(store@[variables@[p].index as int].contains(vals[p]));
            assert(variables@[p] == var);
        }
    }
    r
}

/// Régin's edges into value index `i` from the variable matched to `mt`: one per value
/// of `vals` (in order) indexed `i`, when `i` is not `mt`.
pub open spec fn regin_contrib(vals: Seq<int>, m: Map<i32, usize>, mt: usize, i: int) -> Seq<usize>
    decreases vals.len(),
{
    if vals.len() == 0 {
        Seq::empty()
    } else {
        let prev = regin_contrib(vals.drop_last(), m, mt, i);
        let x = vals.last();
        if m.contains_key(x as i32) && m[x as i32] == i && i != mt {
            prev.push(mt)
        } else {
            prev
        }
    }
}

/// The edges into value index `i` of Régin's value graph over the first `n` variables:
/// for each matched variable in order, [`regin_contrib`] of its values in increasing
/// order.
pub open spec fn regin_edges(
    s: Seq<Set<int>>,
    vars: Seq<VariableId>,
    m: Map<i32, usize>,
    pl: Seq<Option<usize>>,
    i: int,
    n: int,
) -> Seq<usize>
    decreases n,
{
    if n <= 0 {
        Seq::empty()
    } else {
        let prev = regin_edges(s, vars, m, pl, i, n - 1);
        match pl[n - 1] {
            Some(mt) => prev + regin_contrib(sorted_elems(s[vars[n - 1].index as int]), m, mt, i),
            None => prev,
        }
    }
}

/// Every edge of Régin's value graph points to the match of some variable.
proof fn lemma_regin_edges_bound(
    s: Seq<Set<int>>,
    vars: Seq<VariableId>,
    m: Map<i32, usize>,
    pl: Seq<Option<usize>>,
    i: int,
    n: int,
    bound: int,
)
    requires
        n <= pl.len(),
        forall|l: int| 0 <= l < pl.len() && (#[trigger] pl[l]) is Some ==> (pl[l].unwrap() as int) < bound,
    ensures
        forall|k: int| 0 <= k < regin_edges(s, vars, m, pl, i, n).len() ==> (#[trigger] regin_edges(s, vars, m, pl, i, n)[k] as int) < bound,
    decreases n,
{
    if n > 0 {
        lemma_regin_edges_bound(s, vars, m, pl, i, n - 1, bound);
        match pl[n - 1] {
            Some(mt) => {
                lemma_regin_contrib_all(sorted_elems(s[vars[n - 1].index as int]), m, mt, i);
                let prev = regin_edges(s, vars, m, pl, i, n - 1);
                let c = regin_contrib(sorted_elems(s[vars[n - 1].index as int]), m, mt, i);
                assert(regin_edges(s, vars, m, pl, i, n) == prev + c);
                assert((mt as int) < bound);
                assert forall|k: int| 0 <= k < (prev + c).len() implies ((prev + c)[k] as int) < bound by {
                    if k >= prev.len() {
                        assert((prev + c)[k] == c[k - prev.len()]);
                    }
                }
            },
            None => {
                assert(regin_edges(s, vars, m, pl, i, n) == regin_edges(s, vars, m, pl, i, n - 1));
            },
        }
    }
}

/// Every entry of a contribution is the match.
proof fn lemma_regin_contrib_all(vals: Seq<int>, m: Map<i32, usize>, mt: usize, i: int)
    ensures
        forall|k: int| 0 <= k < regin_contrib(vals, m, mt, i).len() ==> #[trigger] regin_contrib(vals, m, mt, i)[k] == mt,
    decreases vals.len(),
{
    if vals.len() > 0 {
        lemma_regin_contrib_all(vals.drop_last(), m, mt, i);
        let prev = regin_contrib(vals.drop_last(), m, mt, i);
        assert forall|k: int| 0 <= k < regin_contrib(vals, m, mt, i).len() implies #[trigger] regin_contrib(vals, m, mt, i)[k] == mt by {
            if k < prev.len() {
                assert(prev[k] == mt);
            }
        }
    }
}

/// Builds Régin's directed value graph: an edge from each value index `v` of a matched
/// variable's domain to the variable's match, when `v` is not that match; values
/// without an index are skipped.
pub fn build_regin_value_graph(
    store: &DomainStore,
    variables: &Vec<VariableId>,
    graph: &BipartiteGraph,
    pair_left: &Vec<Option<usize>>,
) -> (value_graph: Vec<Vec<usize>>)
    requires
        vars_in_range(variables@, store@.len()),
        pair_left@.len() >= variables@.len(),
        forall|v: i32| #[trigger] graph.value_index@.contains_key(v) ==> graph.value_index@[v] < graph.value_count,
    ensures
        value_graph@.len() == graph.value_count,
        forall|i: int| 0 <= i < graph.value_count ==> (#[trigger] value_graph@[i])@ == regin_edges(
            store@,
            variables@,
            graph.value_index@,
            pair_left@,
            i,
            variables@.len() as int,
        ),
{
    let ghost s = store@;
    let ghost m = graph.value_index@;
    let mut value_graph: Vec<Vec<usize>> = Vec::new();
    while value_graph.len() < graph.value_count
        invariant
            value_graph@.len() <= graph.value_count,
            forall|i: int| 0 <= i < value_graph@.len() ==> (#[trigger] value_graph@[i])@ == Seq::<usize>::empty(),
        decreases graph.value_count - value_graph@.len(),
    {
        value_graph.push(Vec::new());
    }
    let mut left: usize = 0;
    while left < variables.len()
        invariant
            0 <= left <= variables@.len(),
            s == store@,
            m == graph.value_index@,
            vars_in_range(variables@, s.len()),
            pair_left@.len() >= variables@.len(),
            forall|v: i32| #[trigger] m.contains_key(v) ==> m[v] < graph.value_count,
            value_graph@.len() == graph.value_count,
            forall|i: int| 0 <= i < graph.value_count ==> (#[trigger] value_graph@[i])@ == regin_edges(s, variables@, m, pair_left@, i, left as int),
        decreases variables@.len() - left,
    {
        let var = variables[left];
        match pair_left[left] {
            None => {
                proof {
                    assert forall|i: int| 0 <= i < graph.value_count implies (#[trigger] value_graph@[i])@ == regin_edges(
                        s, variables@, m, pair_left@, i, left + 1) by {}
                }
            },
            Some(matched) => {
                let values = collect_values(store, var);
                let ghost vals = values@.map_values(|v: i32| v as int);
                let ghost base = value_graph@;
                let mut t: usize = 0;
                while t < values.len()
                    invariant
                        0 <= t <= values@.len(),
                        vals == values@.map_values(|v: i32| v as int),
                        m == graph.value_index@,
                        forall|v: i32| #[trigger] m.contains_key(v) ==> m[v] < graph.value_count,
                        value_graph@.len() == graph.value_count,
                        base.len() == graph.value_count,
                        forall|i: int| 0 <= i < graph.value_count ==> (#[trigger] value_graph@[i])@ == base[i]@ + regin_contrib(
                            vals.take(t as int), m, matched, i),
                    decreases values@.len() - t,
                {
                    let value = values[t];
                    let ghost before = value_graph@;
                    proof {
                        assert(vals.take(t + 1).drop_last() =~= vals.take(t as int));
                        assert(vals.take(t + 1).last() == value as int);
                        assert((value as int) as i32 == value);
                    }
                    match graph.value_index.get(&value) {
                        Some(idx) => {
                            let value_idx = *idx;
                            if value_idx != matched {
                                value_graph[value_idx].push(matched);
                                proof {
                                    assert forall|i: int| 0 <= i < graph.value_count implies (#[trigger] value_graph@[i])@ == base[i]@
                                        + regin_contrib(vals.take(t + 1), m, matched, i) by {
                                        if i == value_idx {
                                            assert(value_graph@[i]@ == before[i]@.push(matched));
                                            assert((base[i]@ + regin_contrib(vals.take(t as int), m, matched, i)).push(matched)
                                                =~= base[i]@ + regin_contrib(vals.take(t as int), m, matched, i).push(matched));
                                        } else {
                                            assert(value_graph@[i] == before[i]);
                                        }
                                    }
                                }
                            } else {
                                proof {
                                    assert forall|i: int| 0 <= i < graph.value_count implies (#[trigger] value_graph@[i])@ == base[i]@
                                        + regin_contrib(vals.take(t + 1), m, matched, i) by {}
                                }
                            }
                        },
                        None => {
                            proof {
                                assert forall|i: int| 0 <= i < graph.value_count implies (#[trigger] value_graph@[i])@ == base[i]@
                                    + regin_contrib(vals.take(t + 1), m, matched, i) by {}
                            }
                        },
                    }
                    t = t + 1;
                }
                proof {
                    assert(vals.take(t as int) =~= vals);
                    assert forall|i: int| 0 <= i < graph.value_count implies (#[trigger] value_graph@[i])@ == regin_edges(
                        s, variables@, m, pair_left@, i, left + 1) by {}
                }
            },
        }
        left = left + 1;
    }
    value_graph
}

/// Whether the value `v` stays in the domain of the variable at position `left`: it
/// must be indexed, adjacent to the variable, and supported by Régin's test for the
/// variable's match.
pub open spec fn regin_keep(
    g: BipartiteGraph,
    pl: Seq<Option<usize>>,
    pr: Seq<Option<usize>>,
    comps: Seq<usize>,
    left: int,
    v: int,
) -> bool {
    let m = g.value_index@;
    &&& m.contains_key(v as i32)
    &&& g.adj@[left]@.contains(m[v as i32])
    &&& ({
        let idx = m[v as i32] as int;
        let mt = pl[left].unwrap() as int;
        idx == mt || pr[idx] is None || comps[idx] == comps[mt]
    })
}

/// Store after the variables at the first `n` positions keep only the values of
/// [`regin_keep`], in order; the flag is `false` when a variable has no match, which
/// stops the pruning there.
pub open spec fn regin_prune(
    s: Seq<Set<int>>,
    vars: Seq<VariableId>,
    g: BipartiteGraph,
    pl: Seq<Option<usize>>,
    pr: Seq<Option<usize>>,
    comps: Seq<usize>,
    n: int,
) -> (Seq<Set<int>>, bool)
    decreases n,
{
    if n <= 0 {
        (s, true)
    } else {
        let (t, ok) = regin_prune(s, vars, g, pl, pr, comps, n - 1);
        if !ok || pl[n - 1] is None {
            (t, false)
        } else {
            let x = vars[n - 1].index as int;
            (t.update(x, t[x].filter(|v: int| regin_keep(g, pl, pr, comps, n - 1, v))), true)
        }
    }
}

/// Once a variable has no match, the pruning ends where it stopped.
proof fn lemma_regin_prune_stops(
    s: Seq<Set<int>>,
    vars: Seq<VariableId>,
    g: BipartiteGraph,
    pl: Seq<Option<usize>>,
    pr: Seq<Option<usize>>,
    comps: Seq<usize>,
    k: int,
    n: int,
)
    requires
        0 <= k <= n,
        !regin_prune(s, vars, g, pl, pr, comps, k).1,
    ensures
        regin_prune(s, vars, g, pl, pr, comps, n) == regin_prune(s, vars, g, pl, pr, comps, k),
    decreases n - k,
{
    if n > k {
        lemma_regin_prune_stops(s, vars, g, pl, pr, comps, k, n - 1);
    }
}

/// Applies Régin's pruning ([`regin_prune`]) to the variables in order; `Err` when a
/// variable has no match, else whether a domain changed.
pub fn apply_regin_pruning(
    store: &mut DomainStore,
    variables: &Vec<VariableId>,
    graph: &BipartiteGraph,
    pair_left: &Vec<Option<usize>>,
    pair_right: &Vec<Option<usize>>,
    components: &Vec<usize>,
) -> (r: Result<bool, ()>)
    requires
        vars_in_range(variables@, old(store)@.len()),
        pair_left@.len() >= variables@.len(),
        graph.adj@.len() >= variables@.len(),
        forall|v: i32| #[trigger] graph.value_index@.contains_key(v) ==> (graph.value_index@[v] as int) < pair_right@.len()
            && (graph.value_index@[v] as int) < components@.len(),
        forall|l: int| 0 <= l < variables@.len() && (#[trigger] pair_left@[l]) is Some ==> (pair_left@[l].unwrap() as int)
            < components@.len(),
    ensures
        (final(store)@, r is Ok) == regin_prune(
            old(store)@,
            variables@,
            *graph,
            pair_left@,
            pair_right@,
            components@,
            variables@.len() as int,
        ),
        r matches Ok(b) ==> b == (final(store)@ != old(store)@),
        narrows(old(store)@, final(store)@),
{
    let ghost s0 = store@;
    let ghost m = graph.value_index@;
    let ghost (pl, pr, comps) = (pair_left@, pair_right@, components@);
    let mut changed = false;
    let mut left: usize = 0;
    proof {
        assert(narrows(s0, s0));
    }
    while left < variables.len()
        invariant
            0 <= left <= variables@.len(),
            s0 == old(store)@,
            m == graph.value_index@,
            pl == pair_left@,
            pr == pair_right@,
            comps == components@,
            vars_in_range(variables@, s0.len()),
            store@.len() == s0.len(),
            pair_left@.len() >= variables@.len(),
            graph.adj@.len() >= variables@.len(),
            forall|v: i32| #[trigger] m.contains_key(v) ==> (m[v] as int) < pr.len() && (m[v] as int) < comps.len(),
            forall|l: int| 0 <= l < variables@.len() && (#[trigger] pl[l]) is Some ==> (pl[l].unwrap() as int) < comps.len(),
            (store@, true) == regin_prune(s0, variables@, *graph, pl, pr, comps, left as int),
            narrows(s0, store@),
            changed == (store@ != s0),
        decreases variables@.len() - left,
    {
        let var = variables[left];
        let matched = match pair_left[left] {
            Some(mt) => mt,
            None => {
                proof {
                    lemma_regin_prune_stops(s0, variables@, *graph, pl, pr, comps, left + 1, variables@.len() as int);
                }
                return Err(());
            },
        };
        let matched_component = components[matched];
        let ghost t0 = store@;
        let ghost x = var.index as int;
        let ghost keep = |v: int| regin_keep(*graph, pl, pr, comps, left as int, v);
        let values = collect_values(store, var);
        let mut k: usize = 0;
        let mut step = false;
        proof {
            assert(t0[x].filter(|v: int| keep(v) || !seq_has(values@.take(0), v)) =~= t0[x]);
            assert(store@ =~= t0.update(x, t0[x].filter(|v: int| keep(v) || !seq_has(values@.take(0), v))));
            assert(narrows(t0, t0));
        }
        while k < values.len()
            invariant
                0 <= k <= values@.len(),
                x == var.index,
                0 <= x < t0.len(),
                m == graph.value_index@,
                pl == pair_left@,
                pr == pair_right@,
                comps == components@,
                left < variables@.len(),
                graph.adj@.len() >= variables@.len(),
                pair_left@.len() >= variables@.len(),
                pl[left as int] == Some(matched),
                (matched as int) < comps.len(),
                matched_component == comps[matched as int],
                forall|v: i32| #[trigger] m.contains_key(v) ==> (m[v] as int) < pr.len() && (m[v] as int) < comps.len(),
                forall|y: int| seq_has(values@, y) <==> t0[x].contains(y),
                keep == (|v: int| regin_keep(*graph, pl, pr, comps, left as int, v)),
                store@ == t0.update(x, t0[x].filter(|v: int| keep(v) || !seq_has(values@.take(k as int), v))),
                narrows(t0, store@),
                step == (store@ != t0),
            decreases values@.len() - k,
        {
            let value = values[k];
            let ghost cur = store@;
            let kept = match graph.value_index.get(&value) {
                None => false,
                Some(idx) => {
                    let value_idx = *idx;
                    if !row_contains(&graph.adj[left], value_idx) {
                        false
                    } else {
                        regin_supports_value(value_idx, matched, pair_right.as_slice(), matched_component, components.as_slice())
                    }
                },
            };
            proof {
                assert((value as int) as i32 == value);
                assert(kept == keep(value as int));
                lemma_seq_has_take_step(values@, k as int);
            }
            let ghost f_next = t0[x].filter(|v: int| keep(v) || !seq_has(values@.take(k + 1), v));
            if !kept {
                let c = store.remove_value(var, value);
                proof {
                    lemma_narrow_step(t0, cur, store@, step, c);
                    assert(store@[x] =~= f_next);
                }
                step = step || c;
            } else {
                proof {
                    assert(cur[x] =~= f_next);
                }
            }
            proof {
                assert(store@ =~= t0.update(x, f_next));
            }
            k = k + 1;
        }
        proof {
            assert(values@.take(k as int) =~= values@);
            assert(t0[x].filter(|v: int| keep(v) || !seq_has(values@, v)) =~= t0[x].filter(|v: int| regin_keep(*graph, pl, pr, comps, left as int, v)));
            lemma_narrows_trans(s0, t0, store@);
            lemma_narrow_step(s0, t0, store@, changed, step);
        }
        changed = changed || step;
        left = left + 1;
    }
    Ok(changed)
}

/// Value `v` of the variable at store index `k` is taken, at some position of that
/// variable in `vars`, by a choice of pairwise distinct values from the domains.
pub open spec fn supported(s: Seq<Set<int>>, vars: Seq<VariableId>, k: int, v: int) -> bool {
    exists|vals: Seq<int>, l: int|
        #![trigger distinct_choice(s, vars, vals), vars[l]]
        distinct_choice(s, vars, vals) && 0 <= l < vars.len() && vars[l].index == k && vals[l] == v
}

/// The domains with every value of a variable of `vars` that no distinct choice
/// supports removed; the other domains as they are.
pub open spec fn gac_filter(s: Seq<Set<int>>, vars: Seq<VariableId>) -> Seq<Set<int>> {
    Seq::new(
        s.len(),
        |k: int| if in_list(vars, k) { s[k].filter(|v: int| supported(s, vars, k, v)) } else { s[k] },
    )
}

/// Filtering to the supported values removes no choice of pairwise distinct values.
pub proof fn law_gac_filter_keeps_choices(s: Seq<Set<int>>, vars: Seq<VariableId>, vals: Seq<int>)
    requires
        vars_in_range(vars, s.len()),
        distinct_choice(s, vars, vals),
    ensures
        distinct_choice(gac_filter(s, vars), vars, vals),
{
    assert forall|l: int| 0 <= l < vars.len() implies gac_filter(s, vars)[vars[l].index as int].contains(#[trigger] vals[l]) by {
        let k = vars[l].index as int;
        assert(in_list(vars, k));
        assert(supported(s, vars, k, vals[l]));
        assert(s[k].contains(vals[l]));
    }
}

/// A variable with an empty domain rules out every choice of values.
pub proof fn lemma_empty_no_choice(s: Seq<Set<int>>, vars: Seq<VariableId>, i: int)
    requires
        0 <= i < vars.len(),
        s[vars[i].index as int].is_empty(),
    ensures
        !exists|vals: Seq<int>| distinct_choice(s, vars, vals),
{
    if exists|vals: Seq<int>| distinct_choice(s, vars, vals) {
        let vals = choose|vals: Seq<int>| distinct_choice(s, vars, vals);
        assert(s[vars[i].index as int].contains(vals[i]));
    }
}

/// The first `n` entries of `rem` remove `x` from the domain at index `k`.
pub open spec fn removed(rem: Seq<(usize, i32)>, n: int, k: int, x: int) -> bool {
    exists|j: int| 0 <= j < n && (#[trigger] rem[j]).0 == k && rem[j].1 == x
}

/// Removes every value that no choice of pairwise distinct values for `variables`
/// takes, leaving each domain with exactly its supported values. With at most one
/// variable it does nothing; `Err`, with the store unchanged, when the variables
/// cannot take pairwise distinct values at all.
pub fn remove_unsupported_values(store: &mut DomainStore, variables: &Vec<VariableId>) -> (r: Result<bool, ()>)
    requires
        vars_in_range(variables@, old(store)@.len()),
        variables@.len() < usize::MAX,
    ensures
        variables@.len() <= 1 ==> r == Ok::<bool, ()>(false) && final(store)@ == old(store)@,
        variables@.len() > 1 ==> (r is Err <==> !exists|vals: Seq<int>| distinct_choice(old(store)@, variables@, vals)),
        r is Err ==> final(store)@ == old(store)@,
        variables@.len() > 1 && r is Ok ==> final(store)@ == gac_filter(old(store)@, variables@),
        r matches Ok(b) ==> b == (final(store)@ != old(store)@),
        narrows(old(store)@, final(store)@),
{
    let ghost s0 = store@;
    let ghost vars = variables@;
    proof {
        assert(narrows(s0, s0));
    }
    if variables.len() <= 1 {
        return Ok(false);
    }
    if !has_perfect_matching(store, variables) {
        return Err(());
    }
    // Decide every value against the domains as they are, then remove the rejected ones.
    let mut rem: Vec<(usize, i32)> = Vec::new();
    let mut i: usize = 0;
    while i < variables.len()
        invariant
            0 <= i <= vars.len(),
            vars == variables@,
            store@ == s0,
            vars_in_range(vars, s0.len()),
            vars.len() < usize::MAX,
            forall|j: int|
                0 <= j < rem@.len() ==> in_list(vars, (#[trigger] rem@[j]).0 as int) && s0[rem@[j].0 as int].contains(rem@[j].1 as int)
                    && !supported(s0, vars, rem@[j].0 as int, rem@[j].1 as int),
            forall|p: int, x: int|
                0 <= p < i && #[trigger] s0[vars[p].index as int].contains(x) && !supported(s0, vars, vars[p].index as int, x)
                    ==> removed(rem@, rem@.len() as int, vars[p].index as int, x),
        decreases vars.len() - i,
    {
        let var = variables[i];
        let values = store.values(var);
        let mut t: usize = 0;
        while t < values.len()
            invariant
                0 <= t <= values@.len(),
                0 <= i < vars.len(),
                var == vars[i as int],
                vars == variables@,
                store@ == s0,
                vars_in_range(vars, s0.len()),
                vars.len() < usize::MAX,
                forall|k: int| 0 <= k < values@.len() ==> s0[var.index as int].contains(#[trigger] values@[k] as int),
                forall|j: int|
                    0 <= j < rem@.len() ==> in_list(vars, (#[trigger] rem@[j]).0 as int) && s0[rem@[j].0 as int].contains(
                        rem@[j].1 as int,
                    ) && !supported(s0, vars, rem@[j].0 as int, rem@[j].1 as int),
                forall|p: int, x: int|
                    0 <= p < i && #[trigger] s0[vars[p].index as int].contains(x) && !supported(s0, vars, vars[p].index as int, x)
                        ==> removed(rem@, rem@.len() as int, vars[p].index as int, x),
                forall|k: int|
                    0 <= k < t && !supported(s0, vars, var.index as int, #[trigger] values@[k] as int) ==> removed(
                        rem@,
                        rem@.len() as int,
                        var.index as int,
                        values@[k] as int,
                    ),
            decreases values@.len() - t,
        {
            let v = values[t];
            let ok = value_in_some_matching(store, variables, var, v);
            proof {
                assert(ok == supported(s0, vars, var.index as int, v as int)) by {
                    if supported(s0, vars, var.index as int, v as int) {
                        let (vals, l) = choose|vals: Seq<int>, l: int|
                            distinct_choice(s0, vars, vals) && 0 <= l < vars.len() && vars[l].index == var.index && vals[l] == v;
                        assert(vars[l] == var);
                    }
                }
            }
            if !ok {
                let ghost before = rem@;
                rem.push((var.index, v));
                proof {
                    assert(in_list(vars, var.index as int)) by {
                        assert(vars[i as int].index == var.index);
                    }
                    assert(rem@[before.len() as int] == (var.index, v));
                    assert forall|j: int| 0 <= j < rem@.len() implies in_list(vars, (#[trigger] rem@[j]).0 as int) && s0[rem@[j].0 as int].contains(
                        rem@[j].1 as int,
                    ) && !supported(s0, vars, rem@[j].0 as int, rem@[j].1 as int) by {
                        if j < before.len() {
                            assert(rem@[j] == before[j]);
                        }
                    }
                    assert forall|p: int, x: int|
                        0 <= p < i && #[trigger] s0[vars[p].index as int].contains(x) && !supported(s0, vars, vars[p].index as int, x)
                            implies removed(rem@, rem@.len() as int, vars[p].index as int, x) by {
                        assert(removed(before, before.len() as int, vars[p].index as int, x));
                        let j = choose|j: int| 0 <= j < before.len() && (#[trigger] before[j]).0 == vars[p].index && before[j].1 == x;
                        assert(rem@[j] == before[j]);
                    }
                    assert forall|k: int|
                        0 <= k < t + 1 && !supported(s0, vars, var.index as int, #[trigger] values@[k] as int) implies removed(
                            rem@,
                            rem@.len() as int,
                            var.index as int,
                            values@[k] as int,
                        ) by {
                        if k < t {
                            assert(removed(before, before.len() as int, var.index as int, values@[k] as int));
                            let j = choose|j: int|
                                0 <= j < before.len() && (#[trigger] before[j]).0 == var.index && before[j].1 == values@[k];
                            assert(rem@[j] == before[j]);
                        } else {
                            assert(rem@[before.len() as int] == (var.index, v));
                        }
                    }
                }
            }
            t = t + 1;
        }
        proof {
            assert forall|p: int, x: int|
                0 <= p < i + 1 && #[trigger] s0[vars[p].index as int].contains(x) && !supported(s0, vars, vars[p].index as int, x)
                    implies removed(rem@, rem@.len() as int, vars[p].index as int, x) by {
                if p == i {
                    assert(seq_has(values@, x));
                    let k = choose|k: int| 0 <= k < values@.len() && values@[k] == x;
                    assert(!supported(s0, vars, var.index as int, values@[k] as int));
                }
            }
        }
        i = i + 1;
    }
    let ghost total = rem@;
    let mut changed = false;
    let mut d: usize = 0;
    proof {
        assert forall|k: int| 0 <= k < s0.len() implies #[trigger] store@[k] == s0[k].filter(
            |x: int| !removed(total, 0, k, x),
        ) by {
            assert(store@[k] =~= s0[k].filter(|x: int| !removed(total, 0, k, x)));
        }
    }
    while d < rem.len()
        invariant
            0 <= d <= total.len(),
            rem@ == total,
            store@.len() == s0.len(),
            narrows(s0, store@),
            changed == (store@ != s0),
            forall|j: int| 0 <= j < total.len() ==> ((#[trigger] total[j]).0 as int) < s0.len(),
            forall|k: int|
                0 <= k < s0.len() ==> #[trigger] store@[k] == s0[k].filter(|x: int| !removed(total, d as int, k, x)),
        decreases total.len() - d,
    {
        let (k, v) = rem[d];
        let ghost before = store@;
        let step = store.remove_value(VariableId { index: k }, v);
        proof {
            lemma_narrow_step(s0, before, store@, changed, step);
            assert forall|q: int| 0 <= q < s0.len() implies #[trigger] store@[q] == s0[q].filter(
                |x: int| !removed(total, d + 1, q, x),
            ) by {
                assert forall|x: int| removed(total, d + 1, q, x) <==> (removed(total, d as int, q, x) || (total[d as int].0 == q
                    && total[d as int].1 == x)) by {
                    if removed(total, d + 1, q, x) {
                        let j = choose|j: int| 0 <= j < d + 1 && (#[trigger] total[j]).0 == q && total[j].1 == x;
                        if j < d {
                        }
                    }
                    if total[d as int].0 == q && total[d as int].1 == x {
                        assert(total[d as int].0 == q && total[d as int].1 == x);
                    }
                }
                assert(store@[q] =~= s0[q].filter(|x: int| !removed(total, d + 1, q, x)));
            }
        }
        changed = changed || step;
        d = d + 1;
    }
    proof {
        assert forall|k: int| 0 <= k < s0.len() implies #[trigger] store@[k] == gac_filter(s0, vars)[k] by {
            if in_list(vars, k) {
                let p = choose|p: int| 0 <= p < vars.len() && vars[p].index == k;
                assert forall|x: int| store@[k].contains(x) <==> gac_filter(s0, vars)[k].contains(x) by {
                    if s0[k].contains(x) {
                        if removed(total, total.len() as int, k, x) {
                            let j = choose|j: int| 0 <= j < total.len() && (#[trigger] total[j]).0 == k && total[j].1 == x;
                        }
                        if !supported(s0, vars, k, x) {
                            assert(s0[vars[p].index as int].contains(x));
                        }
                    }
                }
                assert(store@[k] =~= gac_filter(s0, vars)[k]);
            } else {
                assert forall|x: int| !removed(total, total.len() as int, k, x) by {
                    if removed(total, total.len() as int, k, x) {
                        let j = choose|j: int| 0 <= j < total.len() && (#[trigger] total[j]).0 == k && total[j].1 == x;
                        assert(in_list(vars, total[j].0 as int));
                    }
                }
                assert(store@[k] =~= s0[k]);
            }
        }
        assert(store@ =~= gac_filter(s0, vars));
    }
    Ok(changed)
}

} // verus!
