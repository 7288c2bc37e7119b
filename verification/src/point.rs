use vstd::prelude::*;

verus! {

/// Largest coordinate magnitude the index accepts.  Keeping coordinates in
/// `[-COORD_LIMIT, COORD_LIMIT]` lets every squared distance and SAH cost be
/// computed exactly in machine integers.
pub const COORD_LIMIT: i64 = 1048576;

/// Largest dimensionality the index accepts.
pub const MAX_DIMENSION: usize = 1024;

/// A point in k-dimensional space with integer coordinates.
#[derive(Debug, Clone, PartialEq, Eq)]
pub struct Point {
    pub coords: Vec<i64>,
}

impl View for Point {
    type V = Seq<int>;

    open spec fn view(&self) -> Seq<int> {
        Seq::new(self.coords@.len(), |i: int| self.coords@[i] as int)
    }
}

/// The coordinate sequences of a sequence of points.
pub open spec fn views(pts: Seq<Point>) -> Seq<Seq<int>> {
    pts.map_values(|p: Point| p@)
}

/// A coordinate sequence that fits a tree of dimensionality `k`.
pub open spec fn valid_point(p: Seq<int>, k: int) -> bool {
    &&& p.len() == k
    &&& forall|a: int| 0 <= a < k ==> -(COORD_LIMIT as int) <= #[trigger] p[a] <= COORD_LIMIT as int
}

/// Every point of the sequence fits a tree of dimensionality `k`.
pub open spec fn valid_points(pts: Seq<Seq<int>>, k: int) -> bool {
    forall|i: int| 0 <= i < pts.len() ==> valid_point(#[trigger] pts[i], k)
}

/// A dimensionality the index accepts.
pub open spec fn valid_dimension(k: int) -> bool {
    1 <= k <= MAX_DIMENSION as int
}

/// Squared Euclidean distance between the first `n` coordinates of `p` and `q`.
pub open spec fn dist_sq_upto(p: Seq<int>, q: Seq<int>, n: int) -> int
    decreases n,
{
    if n <= 0 {
        0
    } else {
        dist_sq_upto(p, q, n - 1) + (p[n - 1] - q[n - 1]) * (p[n - 1] - q[n - 1])
    }
}

/// Squared Euclidean distance between two points of dimensionality `k`.
pub open spec fn dist_sq(p: Seq<int>, q: Seq<int>, k: int) -> int {
    dist_sq_upto(p, q, k)
}

/// The partial sums of squared differences are non-negative and grow by at
/// most the largest possible squared difference per axis.
pub proof fn lemma_dist_sq_bounds(p: Seq<int>, q: Seq<int>, k: int, n: int)
    requires
        valid_point(p, k),
        valid_point(q, k),
        0 <= n <= k,
    ensures
        0 <= dist_sq_upto(p, q, n) <= n * (4 * (COORD_LIMIT as int) * (COORD_LIMIT as int)),
    decreases n,
{
    if n > 0 {
        lemma_dist_sq_bounds(p, q, k, n - 1);
        let d = p[n - 1] - q[n - 1];
        assert(-(2 * COORD_LIMIT as int) <= d <= 2 * COORD_LIMIT as int);
        assert(d * d <= 4 * (COORD_LIMIT as int) * (COORD_LIMIT as int)) by (nonlinear_arith)
            requires -(2 * 1048576int) <= d <= 2 * 1048576int;
        assert(d * d >= 0) by (nonlinear_arith);
        assert((n - 1) * (4 * (COORD_LIMIT as int) * (COORD_LIMIT as int))
            + 4 * (COORD_LIMIT as int) * (COORD_LIMIT as int)
            == n * (4 * (COORD_LIMIT as int) * (COORD_LIMIT as int))) by (nonlinear_arith);
    }
}

impl Point {
    /// Wraps a coordinate vector as a point.
    pub fn new(coords: Vec<i64>) -> (r: Point)
        ensures
            r.coords == coords,
            r@.len() == coords@.len(),
            forall|a: int| 0 <= a < coords@.len() ==> r@[a] == coords@[a] as int,
    {
        Point { coords }
    }

    /// Number of coordinates of the point.
    pub fn dim(&self) -> (r: usize)
        ensures
            r == self@.len(),
    {
        self.coords.len()
    }

    /// Reads the coordinate on axis `axis`.
    pub fn get_coordinate(&self, axis: usize) -> (r: i64)
        requires
            axis < self@.len(),
        ensures
            r as int == self@[axis as int],
    {
        self.coords[axis]
    }

    /// An equal copy of the point.
    pub fn duplicate(&self) -> (r: Point)
        ensures
            r@ == self@,
    {
        let n = self.coords.len();
        let mut coords: Vec<i64> = Vec::new();
        let mut i: usize = 0;
        while i < n
            invariant
                i <= n,
                n == self.coords@.len(),
                coords@.len() == i,
                forall|j: int| 0 <= j < i ==> coords@[j] == self.coords@[j],
            decreases n - i,
        {
            coords.push(self.coords[i]);
            i = i + 1;
        }
        let r = Point { coords };
        assert(r@ =~= self@);
        r
    }

    /// True when the point fits a tree of dimensionality `k`.
    pub fn check_valid(&self, k: usize) -> (r: bool)
        ensures
            r <==> valid_point(self@, k as int),
    {
        if self.coords.len() != k {
            return false;
        }
        let mut i: usize = 0;
        while i < k
            invariant
                i <= k,
                self.coords@.len() == k,
                forall|a: int|
                    0 <= a < i ==> -(COORD_LIMIT as int) <= #[trigger] self@[a]
                        <= COORD_LIMIT as int,
            decreases k - i,
        {
            let c = self.coords[i];
            if c < -COORD_LIMIT || c > COORD_LIMIT {
                proof {
                    assert(self@[i as int] == self.coords@[i as int] as int);
                    assert(!valid_point(self@, k as int));
                }
                return false;
            }
            i = i + 1;
        }
        true
    }

    /// Squared Euclidean distance to `other`.
    pub fn dist_sq_to(&self, other: &Point, k: usize) -> (r: i64)
        requires
            valid_point(self@, k as int),
            valid_point(other@, k as int),
            valid_dimension(k as int),
        ensures
            r as int == dist_sq(self@, other@, k as int),
            r >= 0,
    {
        let mut total: i64 = 0;
        let mut a: usize = 0;
        while a < k
            invariant
                a <= k,
                valid_point(self@, k as int),
                valid_point(other@, k as int),
                valid_dimension(k as int),
                total as int == dist_sq_upto(self@, other@, a as int),
                0 <= total as int <= a as int * (4 * (COORD_LIMIT as int) * (COORD_LIMIT as int)),
            decreases k - a,
        {
            proof {
                assert(self@[a as int] == self.coords@[a as int] as int);
                assert(other@[a as int] == other.coords@[a as int] as int);
            }
            let d: i64 = self.coords[a] - other.coords[a];
            proof {
                lemma_dist_sq_bounds(self@, other@, k as int, a as int);
                assert(d as int == self@[a as int] - other@[a as int]);
                assert(d * d <= 4 * (COORD_LIMIT as int) * (COORD_LIMIT as int))
                    by (nonlinear_arith)
                    requires -(2 * 1048576int) <= d as int <= 2 * 1048576int;
                assert(d * d >= 0) by (nonlinear_arith);
                assert(a as int * (4 * (COORD_LIMIT as int) * (COORD_LIMIT as int))
                    <= (MAX_DIMENSION as int) * (4 * (COORD_LIMIT as int) * (COORD_LIMIT as int)))
                    by (nonlinear_arith)
                    requires 0 <= a as int, a as int <= 1024int;
            }
            total = total + d * d;
            a = a + 1;
            proof {
                lemma_dist_sq_bounds(self@, other@, k as int, a as int);
            }
        }
        total
    }
}

} // verus!
