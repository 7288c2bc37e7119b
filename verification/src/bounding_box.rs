use vstd::prelude::*;
use crate::point::{Point, views, valid_points, valid_point, valid_dimension, COORD_LIMIT,
    MAX_DIMENSION};

verus! {

/// Smallest coordinate on axis `a` over a non-empty sequence of points.
pub open spec fn col_min(pts: Seq<Seq<int>>, a: int) -> int
    decreases pts.len(),
{
    if pts.len() <= 1 {
        pts[0][a]
    } else {
        let rest = col_min(pts.drop_last(), a);
        if pts.last()[a] < rest {
            pts.last()[a]
        } else {
            rest
        }
    }
}

/// Largest coordinate on axis `a` over a non-empty sequence of points.
pub open spec fn col_max(pts: Seq<Seq<int>>, a: int) -> int
    decreases pts.len(),
{
    if pts.len() <= 1 {
        pts[0][a]
    } else {
        let rest = col_max(pts.drop_last(), a);
        if pts.last()[a] > rest {
            pts.last()[a]
        } else {
            rest
        }
    }
}

/// Extent of the point set on axis `a`: the length of its bounding box on
/// that axis, and 0 for an empty set.
pub open spec fn extent(pts: Seq<Seq<int>>, a: int) -> int {
    if pts.len() == 0 {
        0
    } else {
        col_max(pts, a) - col_min(pts, a)
    }
}

/// Sum of the first `i` terms `e[a] * e[(a + 1) % e.len()]` of the
/// perimetric surface of a box with edge lengths `e`.
pub open spec fn ring_sum(e: Seq<int>, i: int) -> int
    decreases i,
{
    if i <= 0 {
        0
    } else {
        ring_sum(e, i - 1) + e[i - 1] * e[i % (e.len() as int)]
    }
}

/// Edge lengths of the bounding box of a point set, axis by axis.
pub open spec fn extents_of(pts: Seq<Seq<int>>, k: int) -> Seq<int> {
    Seq::new(k as nat, |a: int| extent(pts, a))
}

/// Perimetric surface area of the bounding box of a point set:
/// `2 * sum_a e[a] * e[(a+1) mod k]`.  It is 0 for an empty set.
pub open spec fn surface_area_of(pts: Seq<Seq<int>>, k: int) -> int {
    2 * ring_sum(extents_of(pts, k), k)
}

/// The column minimum and maximum bound every coordinate of the set.
pub proof fn lemma_col_bounds(pts: Seq<Seq<int>>, a: int, i: int)
    requires
        0 <= i < pts.len(),
    ensures
        col_min(pts, a) <= pts[i][a] <= col_max(pts, a),
    decreases pts.len(),
{
    if pts.len() > 1 {
        if i < pts.len() - 1 {
            lemma_col_bounds(pts.drop_last(), a, i);
        }
    }
}

/// The column minimum and maximum are attained by points of the set.
pub proof fn lemma_col_attained(pts: Seq<Seq<int>>, a: int)
    requires
        pts.len() > 0,
    ensures
        exists|i: int| 0 <= i < pts.len() && #[trigger] pts[i][a] == col_min(pts, a),
        exists|i: int| 0 <= i < pts.len() && #[trigger] pts[i][a] == col_max(pts, a),
    decreases pts.len(),
{
    if pts.len() <= 1 {
        assert(pts[0][a] == col_min(pts, a));
        assert(pts[0][a] == col_max(pts, a));
    } else {
        lemma_col_attained(pts.drop_last(), a);
        let i = choose|i: int| 0 <= i < pts.drop_last().len()
            && #[trigger] pts.drop_last()[i][a] == col_min(pts.drop_last(), a);
        let j = choose|j: int| 0 <= j < pts.drop_last().len()
            && #[trigger] pts.drop_last()[j][a] == col_max(pts.drop_last(), a);
        if pts.last()[a] < col_min(pts.drop_last(), a) {
            assert(pts[pts.len() - 1][a] == col_min(pts, a));
        } else {
            assert(pts[i][a] == col_min(pts, a));
        }
        if pts.last()[a] > col_max(pts.drop_last(), a) {
            assert(pts[pts.len() - 1][a] == col_max(pts, a));
        } else {
            assert(pts[j][a] == col_max(pts, a));
        }
    }
}

/// Extents are non-negative, and bounded when every point is in range.
pub proof fn lemma_extent_bounds(pts: Seq<Seq<int>>, k: int, a: int)
    requires
        valid_points(pts, k),
        0 <= a < k,
    ensures
        0 <= extent(pts, a) <= 2 * (COORD_LIMIT as int),
{
    if pts.len() > 0 {
        lemma_col_bounds(pts, a, 0);
        lemma_col_attained(pts, a);
        let i = choose|i: int| 0 <= i < pts.len() && #[trigger] pts[i][a] == col_min(pts, a);
        let j = choose|j: int| 0 <= j < pts.len() && #[trigger] pts[j][a] == col_max(pts, a);
        assert(valid_point(pts[i], k));
        assert(valid_point(pts[j], k));
    }
}

/// Partial ring sums are non-negative and grow by at most one largest
/// product per term.
pub proof fn lemma_ring_sum_bounds(e: Seq<int>, i: int)
    requires
        0 <= i <= e.len(),
        forall|a: int| 0 <= a < e.len() ==> 0 <= #[trigger] e[a] <= 2 * (COORD_LIMIT as int),
    ensures
        0 <= ring_sum(e, i) <= i * (4 * (COORD_LIMIT as int) * (COORD_LIMIT as int)),
    decreases i,
{
    if i > 0 {
        lemma_ring_sum_bounds(e, i - 1);
        let x = e[i - 1];
        let y = e[i % (e.len() as int)];
        assert(0 <= x * y <= 4 * (COORD_LIMIT as int) * (COORD_LIMIT as int))
            by (nonlinear_arith)
            requires 0 <= x <= 2 * 1048576int, 0 <= y <= 2 * 1048576int;
        assert((i - 1) * (4 * (COORD_LIMIT as int) * (COORD_LIMIT as int))
            + 4 * (COORD_LIMIT as int) * (COORD_LIMIT as int)
            == i * (4 * (COORD_LIMIT as int) * (COORD_LIMIT as int))) by (nonlinear_arith);
    }
}

/// The surface area of a valid point set is non-negative and fits a `u64`.
pub proof fn lemma_surface_area_bounds(pts: Seq<Seq<int>>, k: int)
    requires
        valid_points(pts, k),
        valid_dimension(k),
    ensures
        0 <= surface_area_of(pts, k) <= 2 * (MAX_DIMENSION as int)
            * (4 * (COORD_LIMIT as int) * (COORD_LIMIT as int)),
{
    let e = extents_of(pts, k);
    assert forall|a: int| 0 <= a < e.len() implies 0 <= #[trigger] e[a]
        <= 2 * (COORD_LIMIT as int) by {
        lemma_extent_bounds(pts, k, a);
    }
    lemma_ring_sum_bounds(e, k);
    assert(k * (4 * (COORD_LIMIT as int) * (COORD_LIMIT as int))
        <= (MAX_DIMENSION as int) * (4 * (COORD_LIMIT as int) * (COORD_LIMIT as int)))
        by (nonlinear_arith)
        requires 0 <= k <= 1024int;
}

/// A set whose points all share their coordinate on `a` has no extent
/// there.
pub proof fn lemma_equal_on_axis_extent_zero(pts: Seq<Seq<int>>, a: int)
    requires
        pts.len() > 0,
        forall|i: int| 0 <= i < pts.len() ==> (#[trigger] pts[i])[a] == pts[0][a],
    ensures
        extent(pts, a) == 0,
{
    lemma_col_bounds(pts, a, 0);
    lemma_col_attained(pts, a);
    let i = choose|i: int| 0 <= i < pts.len() && #[trigger] pts[i][a] == col_min(pts, a);
    let j = choose|j: int| 0 <= j < pts.len() && #[trigger] pts[j][a] == col_max(pts, a);
    assert(pts[i][a] == pts[0][a]);
    assert(pts[j][a] == pts[0][a]);
}

/// The ring sum of all-zero edge lengths is zero.
pub proof fn lemma_ring_sum_zero(e: Seq<int>, i: int)
    requires
        0 <= i <= e.len(),
        forall|a: int| 0 <= a < e.len() ==> #[trigger] e[a] == 0,
    ensures
        ring_sum(e, i) == 0,
    decreases i,
{
    if i > 0 {
        lemma_ring_sum_zero(e, i - 1);
        assert(e[i - 1] * e[i % (e.len() as int)] == 0) by (nonlinear_arith)
            requires e[i - 1] == 0;
    }
}

/// A set of identical points has surface area zero.
pub proof fn lemma_all_equal_sa_zero(pts: Seq<Seq<int>>, p0: Seq<int>, k: int)
    requires
        k >= 1,
        forall|i: int| 0 <= i < pts.len() ==> #[trigger] pts[i] == p0,
    ensures
        surface_area_of(pts, k) == 0,
{
    let e = extents_of(pts, k);
    assert forall|a: int| 0 <= a < e.len() implies #[trigger] e[a] == 0 by {
        if pts.len() > 0 {
            lemma_equal_on_axis_extent_zero(pts, a);
        }
    }
    lemma_ring_sum_zero(e, k);
}

/// Axis-aligned bounding box of a point set: the per-axis minima and maxima.
#[derive(Debug, Clone, PartialEq, Eq)]
pub struct BoundingBox {
    pub k: usize,
    pub min_coordinates: Vec<i64>,
    pub max_coordinates: Vec<i64>,
}

impl BoundingBox {
    /// A well-formed box: one bound per axis, each within coordinate range.
    pub open spec fn wf(&self) -> bool {
        &&& valid_dimension(self.k as int)
        &&& self.min_coordinates@.len() == self.k
        &&& self.max_coordinates@.len() == self.k
        &&& forall|a: int| 0 <= a < self.k ==> -(COORD_LIMIT as int)
            <= #[trigger] self.min_coordinates@[a] as int
            <= self.max_coordinates@[a] as int <= COORD_LIMIT as int
    }

    /// Edge lengths of the box, axis by axis.
    pub open spec fn extents(&self) -> Seq<int> {
        Seq::new(self.k as nat, |a: int| self.max_coordinates@[a] - self.min_coordinates@[a])
    }

    /// Computes the bounding box of a non-empty list of points.
    ///
    /// The minima and maxima are those of the coordinates themselves; no
    /// sentinel initial values leak into the result.
    pub fn calculate_bounding_box(list: &Vec<Point>, k: usize) -> (r: BoundingBox)
        requires
            list@.len() > 0,
            valid_points(views(list@), k as int),
            valid_dimension(k as int),
        ensures
            r.wf(),
            r.k == k,
            forall|a: int| 0 <= a < k ==> #[trigger] r.min_coordinates@[a] as int
                == col_min(views(list@), a),
            forall|a: int| 0 <= a < k ==> #[trigger] r.max_coordinates@[a] as int
                == col_max(views(list@), a),
    {
        let ghost pts = views(list@);
        let mut min_coordinates: Vec<i64> = Vec::new();
        let mut max_coordinates: Vec<i64> = Vec::new();
        let first = &list[0];
        let mut a: usize = 0;
        while a < k
            invariant
                a <= k,
                list@.len() > 0,
                pts == views(list@),
                valid_points(pts, k as int),
                valid_dimension(k as int),
                first == list@[0],
                min_coordinates@.len() == a,
                max_coordinates@.len() == a,
                forall|b: int| 0 <= b < a ==> #[trigger] min_coordinates@[b] as int
                    == col_min(pts.take(1), b),
                forall|b: int| 0 <= b < a ==> #[trigger] max_coordinates@[b] as int
                    == col_max(pts.take(1), b),
            decreases k - a,
        {
            proof {
                assert(pts[0] == list@[0]@);
                assert(pts.take(1)[0] == pts[0]);
                assert(first@[a as int] == first.coords@[a as int] as int);
            }
            min_coordinates.push(first.coords[a]);
            max_coordinates.push(first.coords[a]);
            a = a + 1;
        }
        let n = list.len();
        let mut i: usize = 1;
        while i < n
            invariant
                1 <= i <= n,
                n == list@.len(),
                pts == views(list@),
                valid_points(pts, k as int),
                valid_dimension(k as int),
                min_coordinates@.len() == k,
                max_coordinates@.len() == k,
                forall|b: int| 0 <= b < k ==> #[trigger] min_coordinates@[b] as int
                    == col_min(pts.take(i as int), b),
                forall|b: int| 0 <= b < k ==> #[trigger] max_coordinates@[b] as int
                    == col_max(pts.take(i as int), b),
            decreases n - i,
        {
            let p = &list[i];
            let mut a: usize = 0;
            while a < k
                invariant
                    a <= k,
                    1 <= i < n,
                    n == list@.len(),
                    pts == views(list@),
                    valid_points(pts, k as int),
                    valid_dimension(k as int),
                    p == list@[i as int],
                    min_coordinates@.len() == k,
                    max_coordinates@.len() == k,
                    forall|b: int| a <= b < k ==> #[trigger] min_coordinates@[b] as int
                        == col_min(pts.take(i as int), b),
                    forall|b: int| a <= b < k ==> #[trigger] max_coordinates@[b] as int
                        == col_max(pts.take(i as int), b),
                    forall|b: int| 0 <= b < a ==> #[trigger] min_coordinates@[b] as int
                        == col_min(pts.take(i + 1), b),
                    forall|b: int| 0 <= b < a ==> #[trigger] max_coordinates@[b] as int
                        == col_max(pts.take(i + 1), b),
                decreases k - a,
            {
                proof {
                    assert(pts[i as int] == list@[i as int]@);
                    assert(p@[a as int] == p.coords@[a as int] as int);
                    assert(valid_point(pts[i as int], k as int));
                    assert(pts.take(i + 1).drop_last() =~= pts.take(i as int));
                    assert(pts.take(i + 1).last() == pts[i as int]);
                }
                let c = p.coords[a];
                if c < min_coordinates[a] {
                    min_coordinates.set(a, c);
                }
                if c > max_coordinates[a] {
                    max_coordinates.set(a, c);
                }
                proof {
                    let t = pts.take(i + 1);
                    assert(t.len() == i + 1);
                    assert(t.len() > 1);
                    assert(t.drop_last() =~= pts.take(i as int));
                    assert(t.last() == pts[i as int]);
                    assert(c as int == pts[i as int][a as int]);
                    assert(col_min(t, a as int) == if t.last()[a as int] < col_min(
                        t.drop_last(), a as int) { t.last()[a as int] } else { col_min(
                        t.drop_last(), a as int) });
                    assert(col_max(t, a as int) == if t.last()[a as int] > col_max(
                        t.drop_last(), a as int) { t.last()[a as int] } else { col_max(
                        t.drop_last(), a as int) });
                    assert(min_coordinates@[a as int] as int == col_min(t, a as int));
                    assert(max_coordinates@[a as int] as int == col_max(t, a as int));
                }
                a = a + 1;
            }
            i = i + 1;
        }
        proof {
            assert(pts.take(n as int) =~= pts);
            assert forall|a: int| 0 <= a < k implies -(COORD_LIMIT as int)
                <= #[trigger] min_coordinates@[a] as int
                <= max_coordinates@[a] as int <= COORD_LIMIT as int by {
                lemma_col_bounds(pts, a, 0);
                lemma_col_attained(pts, a);
                let i = choose|i: int| 0 <= i < pts.len()
                    && #[trigger] pts[i][a] == col_min(pts, a);
                let j = choose|j: int| 0 <= j < pts.len()
                    && #[trigger] pts[j][a] == col_max(pts, a);
                assert(valid_point(pts[i], k as int));
                assert(valid_point(pts[j], k as int));
            }
        }
        BoundingBox { k, min_coordinates, max_coordinates }
    }

    /// Perimetric surface area of the box:
    /// `2 * sum_a e[a] * e[(a+1) mod k]` over the edge lengths `e`.
    pub fn calculate_surface_area(&self) -> (r: u64)
        requires
            self.wf(),
        ensures
            r as int == 2 * ring_sum(self.extents(), self.k as int),
    {
        let k = self.k;
        let ghost e = self.extents();
        proof {
            assert forall|a: int| 0 <= a < e.len() implies 0 <= #[trigger] e[a]
                <= 2 * (COORD_LIMIT as int) by {}
        }
        let mut axis_list: Vec<u64> = Vec::new();
        let mut a: usize = 0;
        while a < k
            invariant
                a <= k,
                self.wf(),
                k == self.k,
                e == self.extents(),
                axis_list@.len() == a,
                forall|b: int| 0 <= b < a ==> #[trigger] axis_list@[b] as int == e[b],
            decreases k - a,
        {
            let len: u64 = (self.max_coordinates[a] - self.min_coordinates[a]) as u64;
            axis_list.push(len);
            a = a + 1;
        }
        let mut surface_area: u64 = 0;
        let mut a: usize = 0;
        while a < k
            invariant
                a <= k,
                self.wf(),
                k == self.k,
                e == self.extents(),
                e.len() == k,
                axis_list@.len() == k,
                forall|b: int| 0 <= b < k ==> #[trigger] axis_list@[b] as int == e[b],
                forall|b: int| 0 <= b < k ==> 0 <= #[trigger] e[b] <= 2 * (COORD_LIMIT as int),
                surface_area as int == ring_sum(e, a as int),
                0 <= surface_area as int <= a as int
                    * (4 * (COORD_LIMIT as int) * (COORD_LIMIT as int)),
            decreases k - a,
        {
            let next_index = (a + 1) % k;
            let x = axis_list[a];
            let y = axis_list[next_index];
            proof {
                lemma_ring_sum_bounds(e, a as int);
                lemma_ring_sum_bounds(e, a + 1);
                assert(0 <= x as int * (y as int)
                    <= 4 * (COORD_LIMIT as int) * (COORD_LIMIT as int))
                    by (nonlinear_arith)
                    requires 0 <= x as int <= 2 * 1048576int, 0 <= y as int <= 2 * 1048576int;
                assert(a as int * (4 * (COORD_LIMIT as int) * (COORD_LIMIT as int))
                    <= 1024int * (4 * (COORD_LIMIT as int) * (COORD_LIMIT as int)))
                    by (nonlinear_arith)
                    requires 0 <= a as int <= 1024int;
            }
            surface_area = surface_area + x * y;
            a = a + 1;
        }
        proof {
            lemma_ring_sum_bounds(e, k as int);
            let rs = ring_sum(e, k as int);
            assert(rs <= 1024int * (4 * (COORD_LIMIT as int) * (COORD_LIMIT as int)))
                by (nonlinear_arith)
                requires
                    rs <= k as int * (4 * 1048576int * 1048576int),
                    0 <= k as int <= 1024int;
        }
        surface_area * 2
    }
}

} // verus!
