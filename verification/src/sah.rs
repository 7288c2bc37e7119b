use vstd::prelude::*;
use vstd::multiset::Multiset;
use crate::point::{Point, views, valid_points, valid_point, valid_dimension, COORD_LIMIT,
    MAX_DIMENSION};
use crate::bounding_box::{BoundingBox, extent, surface_area_of, extents_of, ring_sum,
    lemma_extent_bounds, lemma_surface_area_bounds, lemma_equal_on_axis_extent_zero,
    lemma_all_equal_sa_zero, lemma_col_bounds, col_min, col_max};
use crate::seq_facts::{lemma_views_push, lemma_views_remove};

verus! {

broadcast use
    vstd::seq_lib::group_to_multiset_ensures,
    vstd::multiset::group_multiset_axioms;

/// The points of `pts` that lie strictly left of the split plane on `axis`,
/// in their original order.  Split values are stored doubled, so the test is
/// `2 * p[axis] < v2`.
pub open spec fn left_of(pts: Seq<Seq<int>>, v2: int, axis: int) -> Seq<Seq<int>>
    decreases pts.len(),
{
    if pts.len() == 0 {
        Seq::empty()
    } else {
        let rest = left_of(pts.drop_last(), v2, axis);
        if 2 * pts.last()[axis] < v2 {
            rest.push(pts.last())
        } else {
            rest
        }
    }
}

/// The points of `pts` on or right of the split plane on `axis`, in their
/// original order.  Points exactly on the plane go right.
pub open spec fn right_of(pts: Seq<Seq<int>>, v2: int, axis: int) -> Seq<Seq<int>>
    decreases pts.len(),
{
    if pts.len() == 0 {
        Seq::empty()
    } else {
        let rest = right_of(pts.drop_last(), v2, axis);
        if 2 * pts.last()[axis] < v2 {
            rest
        } else {
            rest.push(pts.last())
        }
    }
}

/// The two sides of a partition have the whole set's length between them.
pub proof fn lemma_partition_len(pts: Seq<Seq<int>>, v2: int, axis: int)
    ensures
        left_of(pts, v2, axis).len() + right_of(pts, v2, axis).len() == pts.len(),
    decreases pts.len(),
{
    if pts.len() > 0 {
        lemma_partition_len(pts.drop_last(), v2, axis);
    }
}

/// The two sides of a partition carry exactly the multiset of the whole set.
pub proof fn lemma_partition_multiset(pts: Seq<Seq<int>>, v2: int, axis: int)
    ensures
        left_of(pts, v2, axis).to_multiset().add(right_of(pts, v2, axis).to_multiset())
            =~= pts.to_multiset(),
    decreases pts.len(),
{
    broadcast use vstd::seq_lib::group_to_multiset_ensures;

    if pts.len() > 0 {
        lemma_partition_multiset(pts.drop_last(), v2, axis);
        assert(pts.drop_last().push(pts.last()) =~= pts);
    }
}

/// Everything on the left side is left of the plane, everything on the right
/// side is on or right of it, and both sides keep only points of the set.
pub proof fn lemma_partition_membership(pts: Seq<Seq<int>>, v2: int, axis: int)
    ensures
        forall|i: int| 0 <= i < left_of(pts, v2, axis).len()
            ==> 2 * #[trigger] left_of(pts, v2, axis)[i][axis] < v2
                && pts.contains(left_of(pts, v2, axis)[i]),
        forall|i: int| 0 <= i < right_of(pts, v2, axis).len()
            ==> 2 * #[trigger] right_of(pts, v2, axis)[i][axis] >= v2
                && pts.contains(right_of(pts, v2, axis)[i]),
    decreases pts.len(),
{
    if pts.len() > 0 {
        lemma_partition_membership(pts.drop_last(), v2, axis);
        let l = left_of(pts, v2, axis);
        let r = right_of(pts, v2, axis);
        let lrest = left_of(pts.drop_last(), v2, axis);
        let rrest = right_of(pts.drop_last(), v2, axis);
        assert(pts[pts.len() - 1] == pts.last());
        assert forall|p: Seq<int>| pts.drop_last().contains(p) implies pts.contains(p) by {
            let j = choose|j: int| 0 <= j < pts.drop_last().len() && pts.drop_last()[j] == p;
            assert(pts[j] == p);
        }
        assert forall|i: int| 0 <= i < l.len() implies 2 * #[trigger] l[i][axis] < v2
            && pts.contains(l[i]) by {
            if i < lrest.len() {
                assert(l[i] == lrest[i]);
                assert(2 * lrest[i][axis] < v2 && pts.drop_last().contains(lrest[i]));
            } else {
                assert(l[i] == pts.last());
            }
        }
        assert forall|i: int| 0 <= i < r.len() implies 2 * #[trigger] r[i][axis] >= v2
            && pts.contains(r[i]) by {
            if i < rrest.len() {
                assert(r[i] == rrest[i]);
                assert(2 * rrest[i][axis] >= v2 && pts.drop_last().contains(rrest[i]));
            } else {
                assert(r[i] == pts.last());
            }
        }
    }
}

/// Point validity carries to both sides of a partition.
pub proof fn lemma_partition_valid(pts: Seq<Seq<int>>, v2: int, axis: int, k: int)
    requires
        valid_points(pts, k),
    ensures
        valid_points(left_of(pts, v2, axis), k),
        valid_points(right_of(pts, v2, axis), k),
{
    lemma_partition_membership(pts, v2, axis);
    assert forall|i: int| 0 <= i < left_of(pts, v2, axis).len() implies valid_point(
        #[trigger] left_of(pts, v2, axis)[i], k) by {
        assert(2 * left_of(pts, v2, axis)[i][axis] < v2);
        let p = left_of(pts, v2, axis)[i];
        assert(pts.contains(p));
        let j = choose|j: int| 0 <= j < pts.len() && pts[j] == p;
        assert(valid_point(pts[j], k));
    }
    assert forall|i: int| 0 <= i < right_of(pts, v2, axis).len() implies valid_point(
        #[trigger] right_of(pts, v2, axis)[i], k) by {
        assert(2 * right_of(pts, v2, axis)[i][axis] >= v2);
        let p = right_of(pts, v2, axis)[i];
        assert(pts.contains(p));
        let j = choose|j: int| 0 <= j < pts.len() && pts[j] == p;
        assert(valid_point(pts[j], k));
    }
}

/// Splits a list of points in two by the plane on `axis` whose doubled
/// coordinate is `median_value_x2`.  A point goes left exactly when its
/// doubled coordinate on that axis is below `median_value_x2`; order is
/// preserved on both sides.
pub fn partition_dataset(values: &Vec<Point>, median_value_x2: i64, axis: usize, k: usize)
    -> (r: (Vec<Point>, Vec<Point>))
    requires
        valid_points(views(values@), k as int),
        axis < k,
    ensures
        views(r.0@) == left_of(views(values@), median_value_x2 as int, axis as int),
        views(r.1@) == right_of(views(values@), median_value_x2 as int, axis as int),
{
    let ghost pts = views(values@);
    let mut left_subset: Vec<Point> = Vec::new();
    let mut right_subset: Vec<Point> = Vec::new();
    let n = values.len();
    let mut i: usize = 0;
    while i < n
        invariant
            i <= n,
            n == values@.len(),
            pts == views(values@),
            valid_points(pts, k as int),
            axis < k,
            views(left_subset@) == left_of(pts.take(i as int), median_value_x2 as int,
                axis as int),
            views(right_subset@) == right_of(pts.take(i as int), median_value_x2 as int,
                axis as int),
        decreases n - i,
    {
        let p = &values[i];
        proof {
            assert(pts[i as int] == values@[i as int]@);
            assert(valid_point(pts[i as int], k as int));
            assert(p@[axis as int] == p.coords@[axis as int] as int);
            assert(pts.take(i + 1).drop_last() =~= pts.take(i as int));
            assert(pts.take(i + 1).last() == pts[i as int]);
        }
        let c: i64 = p.coords[axis];
        let copy = p.duplicate();
        if 2 * c < median_value_x2 {
            proof {
                lemma_views_push(left_subset@, copy);
            }
            left_subset.push(copy);
        } else {
            proof {
                lemma_views_push(right_subset@, copy);
            }
            right_subset.push(copy);
        }
        i = i + 1;
    }
    proof {
        assert(pts.take(n as int) =~= pts);
    }
    (left_subset, right_subset)
}

/// The points appear in ascending order of their coordinate on `axis`.
pub open spec fn sorted_on(pts: Seq<Seq<int>>, axis: int) -> bool {
    forall|i: int, j: int| 0 <= i <= j < pts.len() ==> #[trigger] pts[i][axis]
        <= #[trigger] pts[j][axis]
}

/// Sorts a list of points ascending by their coordinate on `axis`.
/// The result is a permutation of the input.
pub fn multi_dimensional_sort(values: Vec<Point>, axis: usize, k: usize) -> (r: Vec<Point>)
    requires
        valid_points(views(values@), k as int),
        axis < k,
    ensures
        sorted_on(views(r@), axis as int),
        views(r@).to_multiset() == views(values@).to_multiset(),
        r@.len() == values@.len(),
        valid_points(views(r@), k as int),
{
    let ghost pts = views(values@);
    let mut src = values;
    let mut out: Vec<Point> = Vec::new();
    while src.len() > 0
        invariant
            valid_points(views(src@), k as int),
            valid_points(views(out@), k as int),
            axis < k,
            sorted_on(views(out@), axis as int),
            views(out@).to_multiset().add(views(src@).to_multiset()) == pts.to_multiset(),
            out@.len() + src@.len() == pts.len(),
            forall|i: int, j: int| 0 <= i < out@.len() && 0 <= j < src@.len()
                ==> #[trigger] views(out@)[i][axis as int]
                    <= #[trigger] views(src@)[j][axis as int],
        decreases src.len(),
    {
        // Index of a smallest coordinate on `axis` in the remainder.
        let mut m: usize = 0;
        let mut i: usize = 1;
        let n = src.len();
        while i < n
            invariant
                m < i <= n,
                n == src@.len(),
                valid_points(views(src@), k as int),
                axis < k,
                forall|j: int| 0 <= j < i ==> #[trigger] views(src@)[m as int][axis as int]
                    <= views(src@)[j][axis as int],
            decreases n - i,
        {
            proof {
                assert(views(src@)[i as int] == src@[i as int]@);
                assert(views(src@)[m as int] == src@[m as int]@);
                assert(src@[i as int]@[axis as int] == src@[i as int].coords@[axis as int]);
                assert(src@[m as int]@[axis as int] == src@[m as int].coords@[axis as int]);
            }
            if src[i].coords[axis] < src[m].coords[axis] {
                m = i;
            }
            i = i + 1;
        }
        let ghost old_src = src@;
        let ghost old_out = out@;
        let p = src.remove(m);
        proof {
            lemma_views_remove(old_src, m as int);
            assert(views(old_src).remove(m as int).to_multiset()
                == views(old_src).to_multiset().remove(views(old_src)[m as int]));
            assert(p@ == views(old_src)[m as int]);
            lemma_views_push(old_out, p);
            assert(views(old_out).push(p@).to_multiset()
                == views(old_out).to_multiset().insert(p@));
            assert(views(old_out).to_multiset().insert(p@).add(views(src@).to_multiset())
                =~= views(old_out).to_multiset().add(views(old_src).to_multiset()));
            // The appended point keeps the prefix sorted: it is not below
            // anything already placed, and not above anything still waiting.
            assert forall|j: int| 0 <= j < views(src@).len()
                implies p@[axis as int] <= #[trigger] views(src@)[j][axis as int] by {
                if j < m {
                    assert(views(src@)[j] == views(old_src)[j]);
                } else {
                    assert(views(src@)[j] == views(old_src)[j + 1]);
                }
            }
        }
        out.push(p);
    }
    proof {
        assert(views(src@).to_multiset() =~= Multiset::empty());
        assert(views(out@).to_multiset() =~= pts.to_multiset()) by {
            broadcast use vstd::multiset::group_multiset_axioms;
        }
    }
    out
}

/// The axis with the largest coordinate range among the first `i` axes,
/// lowest axis first on ties.
pub open spec fn largest_axis_upto(pts: Seq<Seq<int>>, i: int) -> int
    decreases i,
{
    if i <= 1 {
        0
    } else {
        let prev = largest_axis_upto(pts, i - 1);
        if extent(pts, i - 1) > extent(pts, prev) {
            i - 1
        } else {
            prev
        }
    }
}

/// The axis a SAH evaluation splits on: the one with the largest coordinate
/// range, the lowest such axis on ties.
pub open spec fn largest_range_axis(pts: Seq<Seq<int>>, k: int) -> int {
    largest_axis_upto(pts, k)
}

/// The chosen axis is in range, has the largest extent, and is the lowest
/// axis with that extent.
pub proof fn lemma_largest_axis_props(pts: Seq<Seq<int>>, i: int)
    requires
        i >= 1,
    ensures
        0 <= largest_axis_upto(pts, i) < i,
        forall|a: int| 0 <= a < i ==> #[trigger] extent(pts, a)
            <= extent(pts, largest_axis_upto(pts, i)),
        forall|a: int| 0 <= a < largest_axis_upto(pts, i) ==> #[trigger] extent(pts, a)
            < extent(pts, largest_axis_upto(pts, i)),
    decreases i,
{
    if i > 1 {
        lemma_largest_axis_props(pts, i - 1);
    }
}

/// Finds the axis with the largest coordinate range over a non-empty set of
/// points; ties go to the lowest axis index.
pub fn find_dimension_axis_with_largest_range(points: &Vec<Point>, k: usize) -> (r: usize)
    requires
        points@.len() > 0,
        valid_points(views(points@), k as int),
        valid_dimension(k as int),
    ensures
        r as int == largest_range_axis(views(points@), k as int),
        r < k,
    {
    let ghost pts = views(points@);
    let bbox = BoundingBox::calculate_bounding_box(points, k);
    let mut largest_range_axis: usize = 0;
    let mut axis: usize = 1;
    proof {
        lemma_largest_axis_props(pts, k as int);
    }
    while axis < k
        invariant
            1 <= axis <= k,
            points@.len() > 0,
            pts == views(points@),
            valid_points(pts, k as int),
            valid_dimension(k as int),
            bbox.wf(),
            bbox.k == k,
            forall|a: int| 0 <= a < k ==> #[trigger] bbox.min_coordinates@[a] as int
                == crate::bounding_box::col_min(pts, a),
            forall|a: int| 0 <= a < k ==> #[trigger] bbox.max_coordinates@[a] as int
                == crate::bounding_box::col_max(pts, a),
            largest_range_axis as int == largest_axis_upto(pts, axis as int),
            largest_range_axis < axis,
        decreases k - axis,
    {
        proof {
            assert(extent(pts, axis as int) == bbox.max_coordinates@[axis as int] as int
                - bbox.min_coordinates@[axis as int] as int);
            assert(extent(pts, largest_range_axis as int)
                == bbox.max_coordinates@[largest_range_axis as int] as int
                - bbox.min_coordinates@[largest_range_axis as int] as int);
        }
        let range_value: i64 = bbox.max_coordinates[axis] - bbox.min_coordinates[axis];
        let best_value: i64 = bbox.max_coordinates[largest_range_axis]
            - bbox.min_coordinates[largest_range_axis];
        if range_value > best_value {
            largest_range_axis = axis;
        }
        axis = axis + 1;
    }
    largest_range_axis
}

/// SAH cost of splitting `pts` on `axis` at the plane with doubled
/// coordinate `v2`: twice the sum, over both sides, of the side's size times
/// the surface area of its bounding box.
pub open spec fn sah_cost_of(pts: Seq<Seq<int>>, axis: int, v2: int, k: int) -> int {
    let l = left_of(pts, v2, axis);
    let r = right_of(pts, v2, axis);
    2 * (l.len() * surface_area_of(l, k) + r.len() * surface_area_of(r, k))
}

/// The SAH cost of a valid point set is non-negative and fits a `u128`.
pub proof fn lemma_sah_cost_bounds(pts: Seq<Seq<int>>, axis: int, v2: int, k: int)
    requires
        valid_points(pts, k),
        valid_dimension(k),
    ensures
        0 <= sah_cost_of(pts, axis, v2, k) <= 2 * (pts.len()
            * (2 * (MAX_DIMENSION as int) * (4 * (COORD_LIMIT as int) * (COORD_LIMIT as int)))),
{
    let l = left_of(pts, v2, axis);
    let r = right_of(pts, v2, axis);
    let sa_cap = 2 * (MAX_DIMENSION as int) * (4 * (COORD_LIMIT as int) * (COORD_LIMIT as int));
    lemma_partition_valid(pts, v2, axis, k);
    lemma_partition_len(pts, v2, axis);
    lemma_surface_area_bounds(l, k);
    lemma_surface_area_bounds(r, k);
    assert(0 <= l.len() * surface_area_of(l, k) <= l.len() * sa_cap) by (nonlinear_arith)
        requires 0 <= surface_area_of(l, k) <= sa_cap, 0 <= l.len();
    assert(0 <= r.len() * surface_area_of(r, k) <= r.len() * sa_cap) by (nonlinear_arith)
        requires 0 <= surface_area_of(r, k) <= sa_cap, 0 <= r.len();
    assert(l.len() * sa_cap + r.len() * sa_cap == (l.len() + r.len()) * sa_cap)
        by (nonlinear_arith);
    assert((l.len() + r.len()) * sa_cap == pts.len() * sa_cap);
}

/// Computes the SAH cost of splitting `sorted_list` on `axis` at the plane
/// with doubled coordinate `median_value_x2`.
pub fn calculate_sah_cost(sorted_list: &Vec<Point>, axis: usize, k: usize,
    median_value_x2: i64) -> (r: u128)
    requires
        valid_points(views(sorted_list@), k as int),
        valid_dimension(k as int),
        axis < k,
    ensures
        r as int == sah_cost_of(views(sorted_list@), axis as int, median_value_x2 as int,
            k as int),
{
    let ghost pts = views(sorted_list@);
    let ghost v2 = median_value_x2 as int;
    let (left_subset, right_subset) = partition_dataset(sorted_list, median_value_x2, axis, k);
    let left_size = left_subset.len();
    let right_size = right_subset.len();
    proof {
        lemma_partition_valid(pts, v2, axis as int, k as int);
        lemma_partition_len(pts, v2, axis as int);
    }
    let surface_area_left: u64 = if left_size > 0 {
        let b = BoundingBox::calculate_bounding_box(&left_subset, k);
        proof {
            assert(b.extents() =~= extents_of(views(left_subset@), k as int));
        }
        b.calculate_surface_area()
    } else {
        proof {
            let l = left_of(pts, v2, axis as int);
            assert(l.len() == 0);
            assert(l.len() * surface_area_of(l, k as int) == 0) by (nonlinear_arith)
                requires l.len() == 0;
        }
        0
    };
    let surface_area_right: u64 = if right_size > 0 {
        let b = BoundingBox::calculate_bounding_box(&right_subset, k);
        proof {
            assert(b.extents() =~= extents_of(views(right_subset@), k as int));
        }
        b.calculate_surface_area()
    } else {
        proof {
            let r = right_of(pts, v2, axis as int);
            assert(r.len() == 0);
            assert(r.len() * surface_area_of(r, k as int) == 0) by (nonlinear_arith)
                requires r.len() == 0;
        }
        0
    };
    proof {
        let l = left_of(pts, v2, axis as int);
        let r = right_of(pts, v2, axis as int);
        let sa_cap = 2 * (MAX_DIMENSION as int)
            * (4 * (COORD_LIMIT as int) * (COORD_LIMIT as int));
        lemma_surface_area_bounds(l, k as int);
        lemma_surface_area_bounds(r, k as int);
        assert(0 <= left_size as int * (surface_area_left as int)
            <= left_size as int * sa_cap) by (nonlinear_arith)
            requires 0 <= surface_area_left as int <= sa_cap, 0 <= left_size as int;
        assert(0 <= right_size as int * (surface_area_right as int)
            <= right_size as int * sa_cap) by (nonlinear_arith)
            requires 0 <= surface_area_right as int <= sa_cap, 0 <= right_size as int;
        assert(left_size as int * sa_cap <= 18446744073709551615int * sa_cap)
            by (nonlinear_arith)
            requires 0 <= left_size as int <= 18446744073709551615int, sa_cap > 0;
        assert(right_size as int * sa_cap <= 18446744073709551615int * sa_cap)
            by (nonlinear_arith)
            requires 0 <= right_size as int <= 18446744073709551615int, sa_cap > 0;
    }
    2 * ((left_size as u128) * (surface_area_left as u128)
        + (right_size as u128) * (surface_area_right as u128))
}

/// Doubled coordinate of the candidate plane between the sorted neighbours
/// `i - 1` and `i`: the plane lies midway, so its doubled coordinate is the
/// exact sum of the two coordinates.
pub open spec fn cand_v2(s: Seq<Seq<int>>, axis: int, i: int) -> int {
    s[i - 1][axis] + s[i][axis]
}

/// SAH cost of candidate `i` of the sorted sequence `s`.
pub open spec fn cand_cost(s: Seq<Seq<int>>, axis: int, k: int, i: int) -> int {
    sah_cost_of(s, axis, cand_v2(s, axis, i), k)
}

/// What a SAH evaluation of `input` returns: `s` is `input` sorted on the
/// largest-range axis, and `(v2, cost)` belong to the candidate with the
/// least cost, the earliest such candidate on ties.
pub open spec fn sah_selection(input: Seq<Seq<int>>, s: Seq<Seq<int>>, axis: int, v2: int,
    cost: int, k: int) -> bool {
    &&& s.to_multiset() == input.to_multiset()
    &&& s.len() == input.len()
    &&& sorted_on(s, axis)
    &&& axis == largest_range_axis(input, k)
    &&& exists|bi: int|
        1 <= bi < s.len() && v2 == cand_v2(s, axis, bi) && cost == #[trigger] cand_cost(
            s, axis, k, bi)
        && (forall|j: int| 1 <= j < s.len() ==> #[trigger] cand_cost(s, axis, k, j) >= cost)
        && (forall|j: int| 1 <= j < bi ==> cand_cost(s, axis, k, j) > cost)
}

/// All points share their coordinate on the axis a SAH evaluation would
/// choose: no plane on that axis separates anything.
pub open spec fn degenerate_on_chosen_axis(pts: Seq<Seq<int>>, k: int) -> bool {
    forall|i: int| 0 <= i < pts.len() ==> (#[trigger] pts[i])[largest_range_axis(pts, k)]
        == pts[0][largest_range_axis(pts, k)]
}

/// When every point shares its coordinate on the chosen axis, that axis
/// has the largest range of all, so every point coincides, every bounding
/// box degenerates, and the selected plane's cost is zero.
pub proof fn lemma_degenerate_axis_cost_zero(input: Seq<Seq<int>>, s: Seq<Seq<int>>,
    ax: int, v2: int, cost: int, k: int)
    requires
        sah_selection(input, s, ax, v2, cost, k),
        valid_points(input, k),
        valid_dimension(k),
        input.len() >= 1,
        degenerate_on_chosen_axis(input, k),
    ensures
        cost == 0,
{
    let p0 = input[0];
    lemma_largest_axis_props(input, k);
    assert(ax == largest_range_axis(input, k));
    lemma_equal_on_axis_extent_zero(input, ax);
    assert forall|a: int| 0 <= a < k implies extent(input, a) == 0 by {
        lemma_extent_bounds(input, k, a);
        assert(extent(input, a) <= extent(input, ax));
    }
    assert forall|i: int| 0 <= i < input.len() implies #[trigger] input[i] == p0 by {
        assert forall|a: int| 0 <= a < k implies input[i][a] == p0[a] by {
            assert(extent(input, a) == 0);
            assert(col_max(input, a) == col_min(input, a));
            lemma_col_bounds(input, a, i);
            lemma_col_bounds(input, a, 0);
        }
        assert(valid_point(input[i], k));
        assert(valid_point(p0, k));
        assert(input[i] =~= p0);
    }
    assert forall|j: int| 0 <= j < s.len() implies #[trigger] s[j] == p0 by {
        assert(s.contains(s[j]));
        assert(input.to_multiset().count(s[j]) > 0);
        assert(input.contains(s[j]));
        let i = choose|i: int| 0 <= i < input.len() && input[i] == s[j];
        assert(input[i] == p0);
    }
    let bi = choose|bi: int|
        1 <= bi < s.len() && v2 == cand_v2(s, ax, bi) && cost == #[trigger] cand_cost(
            s, ax, k, bi)
        && (forall|j: int| 1 <= j < s.len() ==> #[trigger] cand_cost(s, ax, k, j) >= cost)
        && (forall|j: int| 1 <= j < bi ==> cand_cost(s, ax, k, j) > cost);
    let vv = cand_v2(s, ax, bi);
    let l = left_of(s, vv, ax);
    let r = right_of(s, vv, ax);
    lemma_partition_membership(s, vv, ax);
    assert forall|i: int| 0 <= i < l.len() implies #[trigger] l[i] == p0 by {
        assert(2 * left_of(s, vv, ax)[i][ax] < vv);
        assert(s.contains(l[i]));
        let j = choose|j: int| 0 <= j < s.len() && s[j] == l[i];
        assert(s[j] == p0);
    }
    assert forall|i: int| 0 <= i < r.len() implies #[trigger] r[i] == p0 by {
        assert(2 * right_of(s, vv, ax)[i][ax] >= vv);
        assert(s.contains(r[i]));
        let j = choose|j: int| 0 <= j < s.len() && s[j] == r[i];
        assert(s[j] == p0);
    }
    lemma_all_equal_sa_zero(l, p0, k);
    lemma_all_equal_sa_zero(r, p0, k);
    assert(l.len() * surface_area_of(l, k) == 0) by (nonlinear_arith)
        requires surface_area_of(l, k) == 0;
    assert(r.len() * surface_area_of(r, k) == 0) by (nonlinear_arith)
        requires surface_area_of(r, k) == 0;
    assert(cost == sah_cost_of(s, ax, vv, k));
}

/// Outcome of one SAH evaluation: the chosen axis and split plane, its cost,
/// and the point list sorted on that axis.  `has_candidate` is false when
/// the list held a single point, which admits no split plane.
pub struct SAH {
    pub optimal_dimension: usize,
    pub optimal_split_value_x2: i64,
    pub sah_cost: u128,
    pub has_candidate: bool,
    pub k: usize,
    pub og_list: Vec<Point>,
}

impl SAH {
    /// Chooses the split plane of least SAH cost for a non-empty point set.
    ///
    /// Only the axis with the largest coordinate range is evaluated; the
    /// candidate planes lie midway between neighbours in sorted order, and
    /// the earliest candidate wins on cost ties.
    pub fn select_optimal_splitting_plane(points: Vec<Point>, k: usize) -> (r: SAH)
        requires
            points@.len() > 0,
            valid_points(views(points@), k as int),
            valid_dimension(k as int),
        ensures
            r.k == k,
            r.og_list@.len() == points@.len(),
            views(r.og_list@).to_multiset() == views(points@).to_multiset(),
            valid_points(views(r.og_list@), k as int),
            r.optimal_dimension as int == largest_range_axis(views(points@), k as int),
            r.optimal_dimension < k,
            sorted_on(views(r.og_list@), r.optimal_dimension as int),
            r.has_candidate <==> points@.len() >= 2,
            r.has_candidate ==> sah_selection(views(points@), views(r.og_list@),
                r.optimal_dimension as int, r.optimal_split_value_x2 as int,
                r.sah_cost as int, k as int),
    {
        let ghost input = views(points@);
        let largest_range_axis = find_dimension_axis_with_largest_range(&points, k);
        let sorted = multi_dimensional_sort(points, largest_range_axis, k);
        let ghost s = views(sorted@);
        let n = sorted.len();
        if n < 2 {
            return SAH {
                optimal_dimension: largest_range_axis,
                optimal_split_value_x2: 0,
                sah_cost: 0,
                has_candidate: false,
                k,
                og_list: sorted,
            };
        }
        proof {
            assert(s[0] == sorted@[0]@);
            assert(s[1] == sorted@[1]@);
            assert(valid_point(s[0], k as int));
            assert(valid_point(s[1], k as int));
            assert(sorted@[0]@[largest_range_axis as int]
                == sorted@[0].coords@[largest_range_axis as int]);
            assert(sorted@[1]@[largest_range_axis as int]
                == sorted@[1].coords@[largest_range_axis as int]);
        }
        let mut optimal_split_value: i64 = sorted[0].coords[largest_range_axis]
            + sorted[1].coords[largest_range_axis];
        let mut min_cost: u128 = calculate_sah_cost(&sorted, largest_range_axis, k,
            optimal_split_value);
        let ghost mut bi: int = 1;
        let mut i: usize = 2;
        while i < n
            invariant
                2 <= i <= n,
                n == sorted@.len(),
                n >= 2,
                s == views(sorted@),
                valid_points(s, k as int),
                valid_dimension(k as int),
                largest_range_axis < k,
                1 <= bi < i,
                optimal_split_value as int == cand_v2(s, largest_range_axis as int, bi),
                min_cost as int == cand_cost(s, largest_range_axis as int, k as int, bi),
                forall|j: int| 1 <= j < i ==> #[trigger] cand_cost(s,
                    largest_range_axis as int, k as int, j) >= min_cost as int,
                forall|j: int| 1 <= j < bi ==> cand_cost(s, largest_range_axis as int,
                    k as int, j) > min_cost as int,
            decreases n - i,
        {
            proof {
                assert(s[i - 1] == sorted@[i - 1]@);
                assert(s[i as int] == sorted@[i as int]@);
                assert(valid_point(s[i - 1], k as int));
                assert(valid_point(s[i as int], k as int));
                assert(sorted@[i - 1]@[largest_range_axis as int]
                    == sorted@[i - 1].coords@[largest_range_axis as int]);
                assert(sorted@[i as int]@[largest_range_axis as int]
                    == sorted@[i as int].coords@[largest_range_axis as int]);
            }
            let split_value: i64 = sorted[i - 1].coords[largest_range_axis]
                + sorted[i].coords[largest_range_axis];
            let sah_cost = calculate_sah_cost(&sorted, largest_range_axis, k, split_value);
            if sah_cost < min_cost {
                min_cost = sah_cost;
                optimal_split_value = split_value;
                proof {
                    bi = i as int;
                }
            }
            i = i + 1;
        }
        SAH {
            optimal_dimension: largest_range_axis,
            optimal_split_value_x2: optimal_split_value,
            sah_cost: min_cost,
            has_candidate: true,
            k,
            og_list: sorted,
        }
    }

    /// Partitions the sorted list of this evaluation by its chosen plane.
    /// Returns the left side, the right side, and the doubled split value.
    pub fn spatial_partition_dataset(self) -> (r: (Vec<Point>, Vec<Point>, i64))
        requires
            valid_points(views(self.og_list@), self.k as int),
            self.optimal_dimension < self.k,
        ensures
            views(r.0@) == left_of(views(self.og_list@), self.optimal_split_value_x2 as int,
                self.optimal_dimension as int),
            views(r.1@) == right_of(views(self.og_list@), self.optimal_split_value_x2 as int,
                self.optimal_dimension as int),
            r.2 == self.optimal_split_value_x2,
    {
        let (left_subset, right_subset) = partition_dataset(&self.og_list,
            self.optimal_split_value_x2, self.optimal_dimension, self.k);
        (left_subset, right_subset, self.optimal_split_value_x2)
    }

    /// Runs one SAH evaluation and partitions by the chosen plane: the two
    /// sides (`None` when empty), the doubled split value, and the cost.
    pub fn get_constructor(points: Vec<Point>, k: usize)
        -> (r: (Option<Vec<Point>>, Option<Vec<Point>>, i64, u128))
        requires
            points@.len() >= 2,
            valid_points(views(points@), k as int),
            valid_dimension(k as int),
        ensures
            ({
                let ax = largest_range_axis(views(points@), k as int);
                exists|s: Seq<Seq<int>>|
                    #[trigger] sah_selection(views(points@), s, ax, r.2 as int, r.3 as int,
                        k as int)
                    && (match r.0 {
                        Some(l) => views(l@) == left_of(s, r.2 as int, ax) && l@.len() > 0,
                        None => left_of(s, r.2 as int, ax).len() == 0,
                    })
                    && (match r.1 {
                        Some(rt) => views(rt@) == right_of(s, r.2 as int, ax) && rt@.len() > 0,
                        None => right_of(s, r.2 as int, ax).len() == 0,
                    })
            }),
    {
        let ghost input = views(points@);
        let sah = SAH::select_optimal_splitting_plane(points, k);
        let ghost s = views(sah.og_list@);
        let ghost v2 = sah.optimal_split_value_x2 as int;
        let ghost ax = sah.optimal_dimension as int;
        let ghost cost = sah.sah_cost as int;
        let min_cost = sah.sah_cost;
        let (left_subset, right_subset, optimal_split_value) = sah.spatial_partition_dataset();

        let mut result: (Option<Vec<Point>>, Option<Vec<Point>>, i64, u128)
            = (None, None, optimal_split_value, min_cost);
        if left_subset.len() > 0 {
            result.0 = Some(left_subset);
        }
        if right_subset.len() > 0 {
            result.1 = Some(right_subset);
        }
        proof {
            let axg = largest_range_axis(input, k as int);
            assert(axg == ax);
            assert(sah_selection(input, s, axg, result.2 as int, result.3 as int, k as int));
            assert(match result.0 {
                Some(l) => views(l@) == left_of(s, result.2 as int, axg) && l@.len() > 0,
                None => left_of(s, result.2 as int, axg).len() == 0,
            });
            assert(match result.1 {
                Some(rt) => views(rt@) == right_of(s, result.2 as int, axg) && rt@.len() > 0,
                None => right_of(s, result.2 as int, axg).len() == 0,
            });
        }
        result
    }
}

} // verus!
