use vstd::prelude::*;
use vstd::multiset::Multiset;
use crate::point::{Point, views, valid_point, valid_points, valid_dimension, dist_sq,
    dist_sq_upto, lemma_dist_sq_bounds, COORD_LIMIT, MAX_DIMENSION};
use crate::node::{Node, NodeDirection, node_points, wf_node, lemma_node_points_valid};
use crate::kd_tree::KDTree;
use crate::error_handler::ComparisonError;

verus! {

broadcast use
    vstd::seq_lib::group_to_multiset_ensures,
    vstd::multiset::group_multiset_axioms;

/// The distances of a best list, in list order.
pub open spec fn best_dists(b: Seq<(i64, Point)>) -> Seq<int> {
    Seq::new(b.len(), |i: int| b[i].0 as int)
}

/// The squared distances from `q` to each point of `pts`, in order.
pub open spec fn dists_to(q: Seq<int>, pts: Seq<Seq<int>>, k: int) -> Seq<int> {
    Seq::new(pts.len(), |i: int| dist_sq(q, pts[i], k))
}

/// Every entry of `d` is at most `x`.
pub open spec fn all_at_most(d: Seq<int>, x: int) -> bool {
    forall|i: int| 0 <= i < d.len() ==> #[trigger] d[i] <= x
}

/// The best list `b` holds `min(m, |seen|)` of the points of `seen`
/// closest to `q`: its entries pair true squared distances with points of
/// `seen`, they are sorted ascending, their distance multiset is included
/// in the distances of `seen`, and no distance left over is below any
/// distance kept.
pub open spec fn is_k_best(b: Seq<(i64, Point)>, q: Seq<int>, seen: Seq<Seq<int>>, m: int,
    k: int) -> bool {
    let d = best_dists(b);
    let all = dists_to(q, seen, k).to_multiset();
    &&& b.len() == vstd::math::min(m, seen.len() as int)
    &&& forall|i: int, j: int| 0 <= i <= j < d.len() ==> #[trigger] d[i] <= #[trigger] d[j]
    &&& forall|i: int| #![trigger b[i]] 0 <= i < b.len() ==> b[i].0 as int
        == dist_sq(q, b[i].1@, k) && seen.contains(b[i].1@)
    &&& forall|x: int| #[trigger] d.to_multiset().count(x) <= all.count(x)
    &&& forall|x: int| all.count(x) > d.to_multiset().count(x) ==> all_at_most(d, x)
}

/// Inserting anywhere in a sequence inserts into its multiset.
pub proof fn lemma_seq_insert_multiset<A>(s: Seq<A>, j: int, x: A)
    requires
        0 <= j <= s.len(),
    ensures
        s.insert(j, x).to_multiset() == s.to_multiset().insert(x),
{
    let t = s.insert(j, x);
    assert(t =~= s.take(j).push(x) + s.skip(j));
    assert(s =~= s.take(j) + s.skip(j));
    vstd::seq_lib::lemma_multiset_commutative(s.take(j).push(x), s.skip(j));
    vstd::seq_lib::lemma_multiset_commutative(s.take(j), s.skip(j));
    assert(s.take(j).push(x).to_multiset() == s.take(j).to_multiset().insert(x));
    assert(t.to_multiset() =~= s.to_multiset().insert(x));
}

/// Distances to a permutation of a point sequence are a permutation of the
/// distances.
pub proof fn lemma_dists_perm(q: Seq<int>, s1: Seq<Seq<int>>, s2: Seq<Seq<int>>, k: int)
    requires
        s1.to_multiset() == s2.to_multiset(),
    ensures
        dists_to(q, s1, k).to_multiset() == dists_to(q, s2, k).to_multiset(),
    decreases s1.len(),
{
    if s1.len() == 0 {
        assert(s2.len() == 0) by {
            assert(s1.len() == s1.to_multiset().len());
            assert(s2.len() == s2.to_multiset().len());
        }
        assert(dists_to(q, s1, k).to_multiset() =~= dists_to(q, s2, k).to_multiset());
    } else {
        let x = s1.last();
        assert(s1.contains(x));
        assert(s2.to_multiset().count(x) > 0);
        assert(s2.contains(x));
        let j = choose|j: int| 0 <= j < s2.len() && s2[j] == x;
        let s1p = s1.drop_last();
        let s2p = s2.remove(j);
        assert(s1p.push(x) =~= s1);
        assert(s1.to_multiset() == s1p.to_multiset().insert(x));
        assert(s2p.to_multiset() == s2.to_multiset().remove(x));
        assert(s1p.to_multiset() =~= s2p.to_multiset());
        lemma_dists_perm(q, s1p, s2p, k);
        assert(dists_to(q, s1p, k).push(dist_sq(q, x, k)) =~= dists_to(q, s1, k));
        assert(dists_to(q, s1, k).to_multiset()
            == dists_to(q, s1p, k).to_multiset().insert(dist_sq(q, x, k)));
        assert(dists_to(q, s2p, k) =~= dists_to(q, s2, k).remove(j));
        assert(dists_to(q, s2, k).remove(j).to_multiset()
            == dists_to(q, s2, k).to_multiset().remove(dists_to(q, s2, k)[j]));
        assert(dists_to(q, s2, k)[j] == dist_sq(q, x, k));
        assert(dists_to(q, s2, k).to_multiset().count(dist_sq(q, x, k)) > 0);
        assert(dists_to(q, s2, k).to_multiset()
            =~= dists_to(q, s2p, k).to_multiset().insert(dist_sq(q, x, k)));
    }
}

/// A best list for one covered sequence is a best list for any
/// rearrangement of it.
pub proof fn lemma_is_k_best_perm(b: Seq<(i64, Point)>, q: Seq<int>, seen1: Seq<Seq<int>>,
    seen2: Seq<Seq<int>>, m: int, k: int)
    requires
        is_k_best(b, q, seen1, m, k),
        seen1.to_multiset() == seen2.to_multiset(),
    ensures
        is_k_best(b, q, seen2, m, k),
{
    lemma_dists_perm(q, seen1, seen2, k);
    assert(seen1.len() == seen1.to_multiset().len());
    assert(seen2.len() == seen2.to_multiset().len());
    assert forall|i: int| #![trigger b[i]] 0 <= i < b.len() implies b[i].0 as int
        == dist_sq(q, b[i].1@, k) && seen2.contains(b[i].1@) by {
        assert(seen1.contains(b[i].1@));
        assert(seen2.to_multiset().count(b[i].1@) > 0);
    }
}

/// Offers the pair `(d, p)` to a best list bounded by `limit`.  The pair
/// enters while the list is not full, or when `d` beats the worst distance
/// kept; on a tie with the worst the older entries stay.
fn insert_best(best: &mut Vec<(i64, Point)>, d: i64, p: Point, limit: usize,
    Ghost(q): Ghost<Seq<int>>, Ghost(seen): Ghost<Seq<Seq<int>>>, Ghost(k): Ghost<int>)
    requires
        limit >= 1,
        is_k_best(old(best)@, q, seen, limit as int, k),
        d as int == dist_sq(q, p@, k),
    ensures
        is_k_best(final(best)@, q, seen.push(p@), limit as int, k),
{
    let ghost b0 = old(best)@;
    let ghost d0 = best_dists(b0);
    let ghost all0 = dists_to(q, seen, k).to_multiset();
    let ghost seen2 = seen.push(p@);
    let ghost all2 = dists_to(q, seen2, k).to_multiset();
    proof {
        assert(dists_to(q, seen2, k) =~= dists_to(q, seen, k).push(d as int));
        assert(all2 == all0.insert(d as int));
        assert(all2.count(d as int) == all0.count(d as int) + 1);
        assert forall|x: int| x != d as int implies #[trigger] all2.count(x)
            == all0.count(x) by {
            assert(Multiset::singleton(d as int).count(x) == 0);
        }
        assert(seen.len() == dists_to(q, seen, k).len());
        assert(forall|i: int| 0 <= i < seen.len() ==> seen2[i] == #[trigger] seen[i]);
        assert forall|pp: Seq<int>| seen.contains(pp) implies seen2.contains(pp) by {
            let j = choose|j: int| 0 <= j < seen.len() && seen[j] == pp;
            assert(seen2[j] == pp);
        }
        assert(seen2[seen.len() as int] == p@);
        assert(seen2.contains(p@));
    }
    let n = best.len();
    let mut j: usize = 0;
    while j < n && best[j].0 <= d
        invariant
            j <= n,
            n == best@.len(),
            best@ == b0,
            forall|i: int| 0 <= i < j ==> #[trigger] b0[i].0 <= d,
        decreases n - j,
    {
        j = j + 1;
    }
    proof {
        assert(j < n ==> b0[j as int].0 > d);
        // Everything at or past `j` is above `d`.
        assert forall|i: int| j <= i < n implies #[trigger] b0[i].0 > d by {
            assert(best_dists(b0)[j as int] <= best_dists(b0)[i]);
        }
    }
    if n < limit {
        // Not yet full: `seen` and the list have equal distance multisets,
        // so nothing has ever been left aside.
        proof {
            assert(b0.len() == seen.len());
            assert(d0.to_multiset().subset_of(all0));
            assert(d0.len() == d0.to_multiset().len());
            assert(dists_to(q, seen, k).len() == all0.len());
            assert(all0.sub(d0.to_multiset()).len() == 0);
            assert forall|x: int| #[trigger] all0.count(x) == d0.to_multiset().count(x) by {
                assert(all0.sub(d0.to_multiset()).count(x) <= all0.sub(d0.to_multiset()).len());
            }
        }
        best.insert(j, (d, p));
        proof {
            let b1 = best@;
            let d1 = best_dists(b1);
            assert(d1 =~= d0.insert(j as int, d as int));
            lemma_seq_insert_multiset(d0, j as int, d as int);
            assert(d1.to_multiset() == d0.to_multiset().insert(d as int));
            assert forall|x: int| #[trigger] d1.to_multiset().count(x) <= all2.count(x) by {}
            assert forall|x: int| all2.count(x) > d1.to_multiset().count(x)
                implies all_at_most(d1, x) by {
                assert(false);
            }
            assert(b1.len() == vstd::math::min(limit as int, seen2.len() as int));
            assert forall|ii: int, jj: int| 0 <= ii <= jj < d1.len()
                implies #[trigger] d1[ii] <= #[trigger] d1[jj] by {
                if jj < j {
                } else if ii < j && jj == j {
                    assert(d1[ii] == d0[ii] && d0[ii] <= d as int);
                } else if ii < j && jj > j {
                    assert(d0[ii] <= d as int && b0[jj - 1].0 > d);
                } else if ii == j && jj > j {
                    assert(b0[jj - 1].0 > d);
                } else if ii > j {
                    assert(d0[ii - 1] <= d0[jj - 1]);
                }
            }
            assert forall|i: int| #![trigger b1[i]] 0 <= i < b1.len() implies b1[i].0 as int
                == dist_sq(q, b1[i].1@, k) && seen2.contains(b1[i].1@) by {
                if i < j {
                    assert(b1[i] == b0[i]);
                    assert(seen.contains(b0[i].1@));
                } else if i == j {
                    assert(b1[i] == (d, p));
                } else {
                    assert(b1[i] == b0[i - 1]);
                    assert(seen.contains(b0[i - 1].1@));
                }
            }
            assert(is_k_best(b1, q, seen2, limit as int, k));
        }
    } else if j < n {
        // Full, and `d` beats the worst entry: insert in place and let the
        // worst entry go.
        let ghost w = b0[n - 1].0 as int;
        proof {
            assert(d0[j as int] <= d0[n - 1]);
            assert((d as int) < w);
            assert(seen.len() >= b0.len());
        }
        best.insert(j, (d, p));
        let ghost b1 = best@;
        let evicted = best.pop();
        proof {
            let b2 = best@;
            let d1 = best_dists(b1);
            let d2 = best_dists(b2);
            assert(b1 =~= b0.insert(j as int, (d, p)));
            assert(b1.len() == n + 1);
            assert(b1[n as int] == b0[n - 1]);
            assert(b2 =~= b1.drop_last());
            assert(b2 =~= b0.insert(j as int, (d, p)).drop_last());
            assert(d1 =~= d0.insert(j as int, d as int));
            assert(d2 =~= d1.drop_last());
            lemma_seq_insert_multiset(d0, j as int, d as int);
            assert(d1.to_multiset() == d0.to_multiset().insert(d as int));
            assert(d1.to_multiset().count(d as int) == d0.to_multiset().count(d as int) + 1);
            assert forall|x: int| x != d as int implies #[trigger] d1.to_multiset().count(x)
                == d0.to_multiset().count(x) by {
                assert(Multiset::singleton(d as int).count(x) == 0);
            }
            assert(d2.push(d1.last()) =~= d1);
            assert(d1[n as int] == w);
            assert(d1.to_multiset() == d2.to_multiset().insert(w));
            assert(d2.to_multiset().count(w) + 1 == d1.to_multiset().count(w));
            assert forall|x: int| x != w implies #[trigger] d2.to_multiset().count(x)
                == d1.to_multiset().count(x) by {
                assert(Multiset::singleton(w).count(x) == 0);
            }
            assert forall|x: int| #[trigger] d2.to_multiset().count(x) + 0 <= all2.count(x) by {
                if x == w {
                    assert(d2.to_multiset().count(w) + 1 == d0.to_multiset().count(w));
                    assert(d0.to_multiset().count(w) <= all0.count(w));
                } else {
                    assert(d2.to_multiset().count(x) == d1.to_multiset().count(x));
                    if x == d as int {
                        assert(d1.to_multiset().count(x) == d0.to_multiset().count(x) + 1);
                        assert(all2.count(x) == all0.count(x) + 1);
                    } else {
                        assert(d1.to_multiset().count(x) == d0.to_multiset().count(x));
                        assert(all2.count(x) == all0.count(x));
                    }
                }
            }
            // Sortedness of the shortened list.
            assert forall|ii: int, jj: int| 0 <= ii <= jj < d2.len()
                implies #[trigger] d2[ii] <= #[trigger] d2[jj] by {
                assert(d2[ii] == d1[ii] && d2[jj] == d1[jj]);
                if jj < j {
                } else if ii < j && jj == j {
                    assert(d0[ii] <= d as int);
                } else if ii < j && jj > j {
                    assert(d0[ii] <= d as int && b0[jj - 1].0 > d);
                } else if ii == j && jj > j {
                    assert(b0[jj - 1].0 > d);
                } else if ii > j {
                    assert(d0[ii - 1] <= d0[jj - 1]);
                }
            }
            // Entries kept are all at most the evicted worst.
            assert forall|i: int| 0 <= i < d2.len() implies #[trigger] d2[i] <= w by {
                if i < j {
                    assert(d2[i] == d0[i] && d0[i] <= d0[n - 1]);
                } else if i == j {
                } else {
                    assert(d2[i] == d0[i - 1] && d0[i - 1] <= d0[n - 1]);
                }
            }
            assert forall|x: int| all2.count(x) > d2.to_multiset().count(x)
                implies all_at_most(d2, x) by {
                if x == w {
                } else {
                    assert(all0.count(x) > d0.to_multiset().count(x));
                    assert(all_at_most(d0, x));
                    assert(w <= x);
                    assert forall|i: int| 0 <= i < d2.len() implies #[trigger] d2[i] <= x by {
                        assert(d2[i] <= w);
                    }
                }
            }
            assert forall|i: int| #![trigger b2[i]] 0 <= i < b2.len() implies b2[i].0 as int
                == dist_sq(q, b2[i].1@, k) && seen2.contains(b2[i].1@) by {
                if i < j {
                    assert(b2[i] == b0[i]);
                    assert(seen.contains(b0[i].1@));
                } else if i == j {
                    assert(b2[i] == (d, p));
                } else {
                    assert(b2[i] == b0[i - 1]);
                    assert(seen.contains(b0[i - 1].1@));
                }
            }
            assert(b2.len() == vstd::math::min(limit as int, seen2.len() as int));
            assert(is_k_best(b2, q, seen2, limit as int, k));
        }
    } else {
        // Full and `d` is no better than the worst entry: leave the list.
        proof {
            assert(seen.len() >= b0.len());
            assert forall|x: int| all2.count(x) > d0.to_multiset().count(x)
                implies all_at_most(d0, x) by {
                if x == d as int {
                    assert forall|i: int| 0 <= i < d0.len() implies #[trigger] d0[i]
                        <= d as int by {
                        assert(b0[i].0 <= d);
                    }
                } else {
                    assert(all0.count(x) > d0.to_multiset().count(x));
                }
            }
            assert(is_k_best(b0, q, seen2, limit as int, k));
        }
    }
}

/// Partial squared distances are non-negative.
pub proof fn lemma_dist_sq_nonneg(q: Seq<int>, p: Seq<int>, n: int)
    ensures
        dist_sq_upto(q, p, n) >= 0,
    decreases n,
{
    if n > 0 {
        lemma_dist_sq_nonneg(q, p, n - 1);
        let t = q[n - 1] - p[n - 1];
        assert(t * t >= 0) by (nonlinear_arith);
    }
}

/// A squared distance dominates the squared difference on any one axis.
pub proof fn lemma_dist_sq_ge_axis(q: Seq<int>, p: Seq<int>, k: int, a: int)
    requires
        0 <= a < k,
    ensures
        dist_sq(q, p, k) >= (q[a] - p[a]) * (q[a] - p[a]),
    decreases k,
{
    if a == k - 1 {
        lemma_dist_sq_nonneg(q, p, k - 1);
    } else {
        lemma_dist_sq_ge_axis(q, p, k - 1, a);
        let t = q[k - 1] - p[k - 1];
        assert(t * t >= 0) by (nonlinear_arith);
    }
}

/// A full best list absorbs any batch of points that all lie at least as
/// far as its worst entry: the list is best for the batch too.
pub proof fn lemma_absorb_far(b: Seq<(i64, Point)>, q: Seq<int>, seen: Seq<Seq<int>>,
    extra: Seq<Seq<int>>, m: int, k: int)
    requires
        is_k_best(b, q, seen, m, k),
        b.len() == m,
        m >= 1,
        forall|i: int| 0 <= i < extra.len() ==> dist_sq(q, #[trigger] extra[i], k)
            >= best_dists(b)[m - 1],
    ensures
        is_k_best(b, q, seen + extra, m, k),
{
    let d = best_dists(b);
    let all = dists_to(q, seen, k).to_multiset();
    let de = dists_to(q, extra, k);
    let seen3 = seen + extra;
    let all3 = dists_to(q, seen3, k).to_multiset();
    assert(dists_to(q, seen3, k) =~= dists_to(q, seen, k) + de);
    vstd::seq_lib::lemma_multiset_commutative(dists_to(q, seen, k), de);
    assert(all3 == all.add(de.to_multiset()));
    assert(seen.len() >= m);
    assert(seen3.len() >= m);
    assert forall|pp: Seq<int>| seen.contains(pp) implies seen3.contains(pp) by {
        let j = choose|j: int| 0 <= j < seen.len() && seen[j] == pp;
        assert(seen3[j] == pp);
    }
    assert forall|i: int| #![trigger b[i]] 0 <= i < b.len() implies b[i].0 as int
        == dist_sq(q, b[i].1@, k) && seen3.contains(b[i].1@) by {
        assert(seen.contains(b[i].1@));
    }
    assert forall|x: int| #[trigger] d.to_multiset().count(x) <= all3.count(x) by {
        assert(d.to_multiset().count(x) <= all.count(x));
    }
    assert forall|x: int| all3.count(x) > d.to_multiset().count(x)
        implies all_at_most(d, x) by {
        if all.count(x) > d.to_multiset().count(x) {
        } else {
            assert(de.to_multiset().count(x) > 0);
            assert(de.contains(x));
            let i = choose|i: int| 0 <= i < de.len() && de[i] == x;
            assert(de[i] == dist_sq(q, extra[i], k));
            assert(x >= d[m - 1]);
            assert forall|ii: int| 0 <= ii < d.len() implies #[trigger] d[ii] <= x by {
                assert(d[ii] <= d[m - 1]);
            }
        }
    }
}

/// Orders two search candidates by squared distance, the order of the
/// returned best list.  Integer distances always admit an ordering, so
/// the error case never arises.
pub fn sorting_nearest(n_point_a: &(i64, Point), n_point_b: &(i64, Point))
    -> (r: Result<core::cmp::Ordering, ComparisonError>)
    ensures
        r matches Ok(o) && o == (if n_point_a.0 < n_point_b.0 {
            core::cmp::Ordering::Less
        } else if n_point_a.0 > n_point_b.0 {
            core::cmp::Ordering::Greater
        } else {
            core::cmp::Ordering::Equal
        }),
{
    if n_point_a.0 < n_point_b.0 {
        Ok(core::cmp::Ordering::Less)
    } else if n_point_a.0 > n_point_b.0 {
        Ok(core::cmp::Ordering::Greater)
    } else {
        Ok(core::cmp::Ordering::Equal)
    }
}

/// Chooses the side of the plane a query descends to first: on or left of
/// the plane goes left, strictly right goes right.  The plane's coordinate
/// is `split_value_x2 / 2`, both sides doubled for exactness.
pub fn direction(query_coord_x2: i64, split_value_x2: i64) -> (r: NodeDirection)
    ensures
        r == (if query_coord_x2 <= split_value_x2 { NodeDirection::LEFT } else {
            NodeDirection::RIGHT }),
{
    if query_coord_x2 <= split_value_x2 {
        NodeDirection::LEFT
    } else {
        NodeDirection::RIGHT
    }
}

/// Best-first descent: visits the near child, then the far child unless no
/// point beyond the plane can improve a full best list.
fn nearest_neighbour(node: &Node, query_point: &Point, k: usize, limit: usize,
    best: &mut Vec<(i64, Point)>, Ghost(seen): Ghost<Seq<Seq<int>>>)
    requires
        wf_node(*node, k as int),
        valid_point(query_point@, k as int),
        valid_dimension(k as int),
        valid_points(seen, k as int),
        limit >= 1,
        is_k_best(old(best)@, query_point@, seen, limit as int, k as int),
    ensures
        is_k_best(final(best)@, query_point@, seen + node_points(*node), limit as int,
            k as int),
    decreases *node,
{
    let ghost q = query_point@;
    match node {
        Node::Leaf { values } => {
            let n = values.len();
            let mut i: usize = 0;
            while i < n
                invariant
                    i <= n,
                    n == values@.len(),
                    valid_points(views(values@), k as int),
                    valid_point(q, k as int),
                    valid_dimension(k as int),
                    limit >= 1,
                    q == query_point@,
                    is_k_best(best@, q, seen + views(values@.take(i as int)), limit as int,
                        k as int),
                decreases n - i,
            {
                let ghost seen_i = seen + views(values@.take(i as int));
                proof {
                    assert(views(values@)[i as int] == values@[i as int]@);
                    assert(valid_point(values@[i as int]@, k as int));
                }
                let p_ref = &values[i];
                let d = query_point.dist_sq_to(p_ref, k);
                let copy = p_ref.duplicate();
                insert_best(best, d, copy, limit, Ghost(q), Ghost(seen_i),
                    Ghost(k as int));
                proof {
                    assert(seen_i.push(values@[i as int]@)
                        =~= seen + views(values@.take(i + 1)));
                }
                i = i + 1;
            }
            proof {
                assert(seen + views(values@.take(n as int)) =~= seen + views(values@));
            }
        },
        Node::Internal { split_axis, split_value_x2, left, right } => {
            let ax: usize = *split_axis;
            let v2: i64 = *split_value_x2;
            let ghost lp = node_points(**left);
            let ghost rp = node_points(**right);
            proof {
                assert(node_points(*node) == lp + rp);
                lemma_node_points_valid(**left, k as int);
                lemma_node_points_valid(**right, k as int);
                assert(q[ax as int] == query_point.coords@[ax as int] as int);
            }
            let q_ax_x2: i64 = 2 * query_point.coords[ax];
            let near_side = direction(q_ax_x2, v2);
            if matches!(near_side, NodeDirection::LEFT) {
                // Near side is the left child.
                nearest_neighbour(left, query_point, k, limit, best, Ghost(seen));
                let ghost seen_l = seen + lp;
                proof {
                    assert(valid_points(seen_l, k as int)) by {
                        assert(forall|i: int| 0 <= i < seen.len()
                            ==> #[trigger] seen_l[i] == seen[i]);
                        assert(forall|i: int| 0 <= i < lp.len()
                            ==> seen_l[seen.len() + i] == #[trigger] lp[i]);
                    }
                }
                let mut visit_far = true;
                if best.len() >= limit {
                    let worst: i64 = best[best.len() - 1].0;
                    proof {
                        lemma_worst_in_range(best@, q, seen_l, limit as int, k as int);
                    }
                    let gap: i64 = v2 - q_ax_x2;
                    proof {
                        assert(gap as int * (gap as int)
                            <= (4 * COORD_LIMIT as int) * (4 * COORD_LIMIT as int))
                            by (nonlinear_arith)
                            requires 0 <= gap as int <= 4 * 1048576int;
                    }
                    if gap * gap >= 4 * worst {
                        visit_far = false;
                        proof {
                            assert forall|i: int| 0 <= i < rp.len() implies dist_sq(q,
                                #[trigger] rp[i], k as int) >= best_dists(best@)[
                                limit - 1] by {
                                lemma_far_side_bound(q, rp[i], k as int, ax as int,
                                    v2 as int, q_ax_x2 as int, gap as int, worst as int);
                            }
                            lemma_absorb_far(best@, q, seen_l, rp, limit as int, k as int);
                            assert((seen + lp) + rp =~= seen + node_points(*node));
                        }
                    }
                }
                if visit_far {
                    nearest_neighbour(right, query_point, k, limit, best, Ghost(seen_l));
                    proof {
                        assert((seen + lp) + rp =~= seen + node_points(*node));
                    }
                }
            } else {
                // Near side is the right child.
                nearest_neighbour(right, query_point, k, limit, best, Ghost(seen));
                let ghost seen_r = seen + rp;
                proof {
                    assert(valid_points(seen_r, k as int)) by {
                        assert(forall|i: int| 0 <= i < seen.len()
                            ==> #[trigger] seen_r[i] == seen[i]);
                        assert(forall|i: int| 0 <= i < rp.len()
                            ==> seen_r[seen.len() + i] == #[trigger] rp[i]);
                    }
                }
                let mut visit_far = true;
                if best.len() >= limit {
                    let worst: i64 = best[best.len() - 1].0;
                    proof {
                        lemma_worst_in_range(best@, q, seen_r, limit as int, k as int);
                    }
                    let gap: i64 = q_ax_x2 - v2;
                    proof {
                        assert(gap as int * (gap as int)
                            <= (4 * COORD_LIMIT as int) * (4 * COORD_LIMIT as int))
                            by (nonlinear_arith)
                            requires 0 <= gap as int <= 4 * 1048576int;
                    }
                    if gap * gap >= 4 * worst {
                        visit_far = false;
                        proof {
                            assert forall|i: int| 0 <= i < lp.len() implies dist_sq(q,
                                #[trigger] lp[i], k as int) >= best_dists(best@)[
                                limit - 1] by {
                                lemma_far_side_bound_left(q, lp[i], k as int, ax as int,
                                    v2 as int, q_ax_x2 as int, gap as int, worst as int);
                            }
                            lemma_absorb_far(best@, q, seen_r, lp, limit as int, k as int);
                        }
                    }
                }
                if visit_far {
                    nearest_neighbour(left, query_point, k, limit, best, Ghost(seen_r));
                }
                proof {
                    vstd::seq_lib::lemma_multiset_commutative(seen + rp, lp);
                    vstd::seq_lib::lemma_multiset_commutative(seen, rp);
                    vstd::seq_lib::lemma_multiset_commutative(seen, lp + rp);
                    vstd::seq_lib::lemma_multiset_commutative(lp, rp);
                    assert(((seen + rp) + lp).to_multiset()
                        =~= (seen + node_points(*node)).to_multiset());
                    lemma_is_k_best_perm(best@, q, (seen + rp) + lp,
                        seen + node_points(*node), limit as int, k as int);
                }
            }
        },
    }
}

impl KDTree {
    /// Returns the `point_limit` points of the tree closest to
    /// `query_point`, paired with their squared distances and sorted
    /// ascending; with `point_limit` 0 the list is empty.  Returns `None`
    /// when `k` disagrees with the tree's dimensionality or the query
    /// point does not fit it.
    pub fn find_closest(&self, query_point: &Point, k: usize, point_limit: usize)
        -> (r: Option<Vec<(i64, Point)>>)
        requires
            self.wf(),
        ensures
            k == self.dimension && valid_point(query_point@, k as int)
                ==> (r matches Some(v) && is_k_best(v@, query_point@, self.points(),
                    point_limit as int, k as int)),
            !(k == self.dimension && valid_point(query_point@, k as int)) ==> r is None,
    {
        if k != self.dimension {
            return None;
        }
        if !query_point.check_valid(k) {
            return None;
        }
        let mut best_points: Vec<(i64, Point)> = Vec::new();
        proof {
            assert(best_dists(best_points@) =~= Seq::<int>::empty());
            assert(dists_to(query_point@, Seq::<Seq<int>>::empty(), k as int)
                =~= Seq::<int>::empty());
            assert(Seq::<int>::empty().to_multiset().len() == 0);
            lemma_node_points_valid(self.root, k as int);
        }
        if point_limit == 0 {
            proof {
                assert(dists_to(query_point@, self.points(), k as int).len()
                    == self.points().len());
                assert(is_k_best(best_points@, query_point@, self.points(), 0, k as int));
            }
            return Some(best_points);
        }
        proof {
            assert(is_k_best(best_points@, query_point@, Seq::<Seq<int>>::empty(),
                point_limit as int, k as int));
            assert(valid_points(Seq::<Seq<int>>::empty(), k as int));
        }
        nearest_neighbour(&self.root, query_point, k, point_limit, &mut best_points,
            Ghost(Seq::empty()));
        proof {
            assert(Seq::<Seq<int>>::empty() + node_points(self.root)
                =~= node_points(self.root));
        }
        Some(best_points)
    }
}

/// Returns the `point_limit` points of `points` closest to `query_point`
/// by scanning every point: the plain oracle the tree search agrees with.
/// Returns `None` when the dimensionality is out of range or any point
/// does not fit it.
pub fn find_closest_brute_force(points: &Vec<Point>, query_point: &Point, k: usize,
    point_limit: usize) -> (r: Option<Vec<(i64, Point)>>)
    ensures
        valid_dimension(k as int) && valid_point(query_point@, k as int)
            && valid_points(views(points@), k as int)
            ==> (r matches Some(v) && is_k_best(v@, query_point@, views(points@),
                point_limit as int, k as int)),
        !(valid_dimension(k as int) && valid_point(query_point@, k as int)
            && valid_points(views(points@), k as int)) ==> r is None,
{
    if k < 1 || k > MAX_DIMENSION {
        return None;
    }
    if !query_point.check_valid(k) {
        return None;
    }
    let n = points.len();
    let mut i: usize = 0;
    while i < n
        invariant
            i <= n,
            n == points@.len(),
            forall|j: int| 0 <= j < i ==> valid_point(#[trigger] views(points@)[j], k as int),
        decreases n - i,
    {
        proof {
            assert(views(points@)[i as int] == points@[i as int]@);
        }
        if !points[i].check_valid(k) {
            return None;
        }
        i = i + 1;
    }
    let ghost q = query_point@;
    let ghost pts = views(points@);
    let mut best_points: Vec<(i64, Point)> = Vec::new();
    proof {
        assert(best_dists(best_points@) =~= Seq::<int>::empty());
        assert(dists_to(q, pts, k as int).len() == pts.len());
        assert(dists_to(q, Seq::<Seq<int>>::empty(), k as int) =~= Seq::<int>::empty());
        assert(Seq::<int>::empty().to_multiset().len() == 0);
    }
    if point_limit == 0 {
        proof {
            assert(is_k_best(best_points@, q, pts, 0, k as int));
        }
        return Some(best_points);
    }
    proof {
        assert(pts.take(0) =~= Seq::<Seq<int>>::empty());
        assert(dists_to(q, pts.take(0), k as int) =~= Seq::<int>::empty());
        assert(is_k_best(best_points@, q, pts.take(0), point_limit as int, k as int));
    }
    let mut i: usize = 0;
    while i < n
        invariant
            i <= n,
            n == points@.len(),
            pts == views(points@),
            q == query_point@,
            valid_point(q, k as int),
            valid_points(pts, k as int),
            valid_dimension(k as int),
            point_limit >= 1,
            is_k_best(best_points@, q, pts.take(i as int), point_limit as int, k as int),
        decreases n - i,
    {
        proof {
            assert(pts[i as int] == points@[i as int]@);
            assert(valid_point(pts[i as int], k as int));
        }
        let p_ref = &points[i];
        let d = query_point.dist_sq_to(p_ref, k);
        let copy = p_ref.duplicate();
        insert_best(&mut best_points, d, copy, point_limit, Ghost(q),
            Ghost(pts.take(i as int)), Ghost(k as int));
        proof {
            assert(pts.take(i as int).push(pts[i as int]) =~= pts.take(i + 1));
        }
        i = i + 1;
    }
    proof {
        assert(pts.take(n as int) =~= pts);
    }
    Some(best_points)
}

/// Two best lists drawn from the same multiset of points carry exactly the
/// same distance sequence.  In particular the tree search agrees with the
/// brute-force scan, and two searches over trees built from the same
/// points return the same distances.
pub proof fn lemma_k_best_agreement(b1: Seq<(i64, Point)>, b2: Seq<(i64, Point)>,
    q: Seq<int>, seen1: Seq<Seq<int>>, seen2: Seq<Seq<int>>, m: int, k: int)
    requires
        is_k_best(b1, q, seen1, m, k),
        is_k_best(b2, q, seen2, m, k),
        seen1.to_multiset() == seen2.to_multiset(),
    ensures
        best_dists(b1) == best_dists(b2),
{
    lemma_is_k_best_perm(b2, q, seen2, seen1, m, k);
    assert(seen1.len() == seen1.to_multiset().len());
    assert(seen2.len() == seen2.to_multiset().len());
    lemma_sorted_selection_unique(best_dists(b1), best_dists(b2),
        dists_to(q, seen1, k).to_multiset());
}

/// A sorted selection of least elements of a multiset is unique: two
/// sorted sequences of the same length, both included in `all` and both
/// with nothing left aside below them, are equal.
pub proof fn lemma_sorted_selection_unique(u: Seq<int>, v: Seq<int>, all: Multiset<int>)
    requires
        u.len() == v.len(),
        forall|i: int, j: int| 0 <= i <= j < u.len() ==> #[trigger] u[i] <= #[trigger] u[j],
        forall|i: int, j: int| 0 <= i <= j < v.len() ==> #[trigger] v[i] <= #[trigger] v[j],
        forall|x: int| #[trigger] u.to_multiset().count(x) <= all.count(x),
        forall|x: int| #[trigger] v.to_multiset().count(x) <= all.count(x),
        forall|x: int| all.count(x) > u.to_multiset().count(x) ==> all_at_most(u, x),
        forall|x: int| all.count(x) > v.to_multiset().count(x) ==> all_at_most(v, x),
    ensures
        u == v,
    decreases u.len(),
{
    if u.len() == 0 {
        assert(u =~= v);
    } else {
        assert(u.contains(u[0]));
        assert(v.contains(v[0]));
        assert(u.to_multiset().count(u[0]) > 0);
        assert(v.to_multiset().count(v[0]) > 0);
        // Each head is at most the other: either the other's head is also
        // kept here, or it was left aside and bounds everything kept.
        assert(u[0] <= v[0]) by {
            if all.count(v[0]) > u.to_multiset().count(v[0]) {
                assert(all_at_most(u, v[0]));
            } else {
                assert(u.to_multiset().count(v[0]) > 0);
                assert(u.contains(v[0]));
                let i = choose|i: int| 0 <= i < u.len() && u[i] == v[0];
                assert(u[0] <= u[i]);
            }
        }
        assert(v[0] <= u[0]) by {
            if all.count(u[0]) > v.to_multiset().count(u[0]) {
                assert(all_at_most(v, u[0]));
            } else {
                assert(v.to_multiset().count(u[0]) > 0);
                assert(v.contains(u[0]));
                let i = choose|i: int| 0 <= i < v.len() && v[i] == u[0];
                assert(v[0] <= v[i]);
            }
        }
        let h = u[0];
        let up = u.drop_first();
        let vp = v.drop_first();
        let allp = all.remove(h);
        assert(up =~= u.remove(0));
        assert(vp =~= v.remove(0));
        assert(u.remove(0).to_multiset() == u.to_multiset().remove(u[0]));
        assert(v.remove(0).to_multiset() == v.to_multiset().remove(v[0]));
        assert(all.count(h) >= 1);
        assert forall|x: int| x != h implies #[trigger] up.to_multiset().count(x)
            == u.to_multiset().count(x) && vp.to_multiset().count(x)
            == v.to_multiset().count(x) && allp.count(x) == all.count(x) by {
            assert(Multiset::singleton(h).count(x) == 0);
        }
        assert(up.to_multiset().count(h) == u.to_multiset().count(h) - 1);
        assert(vp.to_multiset().count(h) == v.to_multiset().count(h) - 1);
        assert(allp.count(h) == all.count(h) - 1);
        assert forall|x: int| all.count(x) > u.to_multiset().count(x)
            implies all_at_most(up, x) by {
            assert(all_at_most(u, x));
            assert forall|i: int| 0 <= i < up.len() implies #[trigger] up[i] <= x by {
                assert(up[i] == u[i + 1]);
            }
        }
        assert forall|x: int| all.count(x) > v.to_multiset().count(x)
            implies all_at_most(vp, x) by {
            assert(all_at_most(v, x));
            assert forall|i: int| 0 <= i < vp.len() implies #[trigger] vp[i] <= x by {
                assert(vp[i] == v[i + 1]);
            }
        }
        lemma_sorted_selection_unique(up, vp, allp);
        assert(u =~= v) by {
            assert(forall|i: int| 1 <= i < u.len() ==> #[trigger] u[i] == up[i - 1]);
            assert(forall|i: int| 1 <= i < v.len() ==> #[trigger] v[i] == vp[i - 1]);
        }
    }
}

/// Queries are deterministic at the distance level: two trees holding the
/// same multiset of points — in particular two trees built from the same
/// point sequence, or the same tree queried twice — give any query the
/// same distance sequence.
pub proof fn lemma_same_points_same_query_dists(t1: &KDTree, t2: &KDTree,
    b1: Seq<(i64, Point)>, b2: Seq<(i64, Point)>, q: Seq<int>, m: int, k: int)
    requires
        t1.points().to_multiset() == t2.points().to_multiset(),
        is_k_best(b1, q, t1.points(), m, k),
        is_k_best(b2, q, t2.points(), m, k),
    ensures
        best_dists(b1) == best_dists(b2),
{
    lemma_k_best_agreement(b1, b2, q, t1.points(), t2.points(), m, k);
}

/// The worst entry of a best list over valid points is a valid squared
/// distance: non-negative and small enough for the pruning arithmetic.
proof fn lemma_worst_in_range(b: Seq<(i64, Point)>, q: Seq<int>, seen: Seq<Seq<int>>,
    m: int, k: int)
    requires
        is_k_best(b, q, seen, m, k),
        valid_point(q, k),
        valid_points(seen, k),
        valid_dimension(k),
        b.len() >= 1,
    ensures
        0 <= b[b.len() - 1].0 as int <= (MAX_DIMENSION as int)
            * (4 * (COORD_LIMIT as int) * (COORD_LIMIT as int)),
{
    let i = b.len() - 1;
    assert(b[i].0 as int == dist_sq(q, b[i].1@, k));
    assert(seen.contains(b[i].1@));
    let j = choose|j: int| 0 <= j < seen.len() && seen[j] == b[i].1@;
    assert(valid_point(seen[j], k));
    lemma_dist_sq_bounds(q, b[i].1@, k, k);
    assert(k * (4 * (COORD_LIMIT as int) * (COORD_LIMIT as int)) <= (MAX_DIMENSION as int)
        * (4 * (COORD_LIMIT as int) * (COORD_LIMIT as int))) by (nonlinear_arith)
        requires 0 <= k <= 1024int;
}

/// A point on or right of the plane is at least the plane gap away from a
/// query on or left of it.
proof fn lemma_far_side_bound(q: Seq<int>, p: Seq<int>, k: int, ax: int, v2: int,
    q_ax_x2: int, gap: int, worst: int)
    requires
        0 <= ax < k,
        2 * p[ax] >= v2,
        q_ax_x2 == 2 * q[ax],
        q_ax_x2 <= v2,
        gap == v2 - q_ax_x2,
        gap * gap >= 4 * worst,
    ensures
        dist_sq(q, p, k) >= worst,
{
    lemma_dist_sq_ge_axis(q, p, k, ax);
    let t = q[ax] - p[ax];
    let a2 = 2 * p[ax] - q_ax_x2;
    assert(a2 >= gap >= 0);
    assert(a2 * a2 >= gap * gap) by (nonlinear_arith)
        requires a2 >= gap, gap >= 0;
    assert(a2 * a2 == 4 * (t * t)) by (nonlinear_arith)
        requires a2 == -2 * t;
    assert(4 * dist_sq(q, p, k) >= 4 * (t * t));
}

/// A point strictly left of the plane is at least the plane gap away from
/// a query strictly right of it.
proof fn lemma_far_side_bound_left(q: Seq<int>, p: Seq<int>, k: int, ax: int, v2: int,
    q_ax_x2: int, gap: int, worst: int)
    requires
        0 <= ax < k,
        2 * p[ax] < v2,
        q_ax_x2 == 2 * q[ax],
        q_ax_x2 > v2,
        gap == q_ax_x2 - v2,
        gap * gap >= 4 * worst,
    ensures
        dist_sq(q, p, k) >= worst,
{
    lemma_dist_sq_ge_axis(q, p, k, ax);
    let t = q[ax] - p[ax];
    let a2 = q_ax_x2 - 2 * p[ax];
    assert(a2 >= gap >= 0);
    assert(a2 * a2 >= gap * gap) by (nonlinear_arith)
        requires a2 >= gap, gap >= 0;
    assert(a2 * a2 == 4 * (t * t)) by (nonlinear_arith)
        requires a2 == 2 * t;
    assert(4 * dist_sq(q, p, k) >= 4 * (t * t));
}

} // verus!
