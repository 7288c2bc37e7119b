use vstd::prelude::*;
use crate::point::{Point, views, valid_points, valid_point, valid_dimension, COORD_LIMIT};
use crate::node::{Node, node_points, wf_node, leaf_buckets_within, lemma_leaf_buckets_weaken};
use crate::sah::{SAH, left_of, right_of, cand_v2, cand_cost,
    degenerate_on_chosen_axis, lemma_degenerate_axis_cost_zero,
    lemma_partition_len, lemma_partition_multiset, lemma_partition_membership,
    lemma_partition_valid};
use crate::seq_facts::lemma_multiset_same_len;

verus! {

broadcast use
    vstd::seq_lib::group_to_multiset_ensures,
    vstd::multiset::group_multiset_axioms;

/// Why a tree could not be built.
#[derive(Debug, Clone, Copy, PartialEq, Eq, Structural)]
pub enum BuildError {
    /// No points were supplied.
    EmptyInput,
    /// A point's coordinate count disagrees with the tree's dimensionality.
    DimensionMismatch,
}

/// Every point of the sequence has exactly `k` coordinates.
pub open spec fn all_dimensions_match(pts: Seq<Seq<int>>, k: int) -> bool {
    forall|i: int| 0 <= i < pts.len() ==> (#[trigger] pts[i]).len() == k
}

/// Every coordinate of every point is within the accepted range.
pub open spec fn coords_in_range(pts: Seq<Seq<int>>) -> bool {
    forall|i: int, a: int| 0 <= i < pts.len() && 0 <= a < pts[i].len()
        ==> -(COORD_LIMIT as int) <= #[trigger] pts[i][a] <= COORD_LIMIT as int
}

/// The spatial index: a root node and the dimensionality its points share.
#[derive(Debug)]
pub struct KDTree {
    pub root: Node,
    pub dimension: usize,
}

impl KDTree {
    /// A sound tree of dimensionality `k`.
    pub open spec fn wf(&self) -> bool {
        &&& valid_dimension(self.dimension as int)
        &&& wf_node(self.root, self.dimension as int)
    }

    /// The coordinate sequences of every point in the tree.
    pub open spec fn points(&self) -> Seq<Seq<int>> {
        node_points(self.root)
    }

    /// Builds the index over `values`.
    ///
    /// Fails with `EmptyInput` on an empty list and with
    /// `DimensionMismatch` when any point does not have `k` coordinates.
    /// Otherwise the tree holds exactly the multiset of the input points.
    pub fn create_kd_tree(values: Vec<Point>, k: usize, min_points_per_subset: usize)
        -> (r: Result<KDTree, BuildError>)
        requires
            valid_dimension(k as int),
            coords_in_range(views(values@)),
        ensures
            values@.len() == 0 ==> r == Result::<KDTree, BuildError>::Err(
                BuildError::EmptyInput),
            values@.len() > 0 && !all_dimensions_match(views(values@), k as int)
                ==> r == Result::<KDTree, BuildError>::Err(BuildError::DimensionMismatch),
            values@.len() > 0 && all_dimensions_match(views(values@), k as int) ==> {
                &&& r matches Result::Ok(t)
                &&& t.wf()
                &&& t.dimension == k
                &&& t.points().to_multiset() == views(values@).to_multiset()
                &&& (values@.len() <= min_points_per_subset
                    ==> (t.root matches Node::Leaf { values: b } && b@ == values@))
                &&& (values@.len() == 1
                    ==> (t.root matches Node::Leaf { values: b } && views(b@)
                        == views(values@)))
                &&& (degenerate_on_chosen_axis(views(values@), k as int)
                    ==> t.root matches Node::Leaf { .. })
                &&& leaf_buckets_within(t.root, vstd::math::max(
                    min_points_per_subset as int, values@.len() as int))
            },
    {
        if values.len() == 0 {
            return Err(BuildError::EmptyInput);
        }
        let n = values.len();
        let mut i: usize = 0;
        while i < n
            invariant
                i <= n,
                n == values@.len(),
                forall|j: int| 0 <= j < i ==> (#[trigger] views(values@)[j]).len() == k,
            decreases n - i,
        {
            proof {
                assert(views(values@)[i as int] == values@[i as int]@);
            }
            if values[i].coords.len() != k {
                return Err(BuildError::DimensionMismatch);
            }
            i = i + 1;
        }
        proof {
            assert(valid_points(views(values@), k as int));
        }
        let root = Self::create_branch(values, 0, k, min_points_per_subset);
        Ok(KDTree { root, dimension: k })
    }

    /// Builds one subtree over `values` recursively.
    ///
    /// A list no longer than `min_points_per_subset` becomes a leaf as it
    /// stands.  Otherwise the SAH evaluator picks a plane; a plane of zero
    /// cost or with an empty side is degenerate, and the whole list
    /// collapses into one leaf.  A proper split sends each side into a
    /// child subtree.
    fn create_branch(values: Vec<Point>, depth: usize, k: usize,
        min_points_per_subset: usize) -> (r: Node)
        requires
            values@.len() >= 1,
            valid_points(views(values@), k as int),
            valid_dimension(k as int),
            depth + values@.len() <= usize::MAX as int,
        ensures
            wf_node(r, k as int),
            node_points(r).to_multiset() == views(values@).to_multiset(),
            values@.len() <= min_points_per_subset
                ==> (r matches Node::Leaf { values: b } && b@ == values@),
            values@.len() == 1
                ==> (r matches Node::Leaf { values: b } && views(b@) == views(values@)),
            degenerate_on_chosen_axis(views(values@), k as int)
                ==> r matches Node::Leaf { .. },
            leaf_buckets_within(r, vstd::math::max(min_points_per_subset as int,
                values@.len() as int)),
        decreases values@.len(),
    {
        let ghost input = views(values@);
        if values.len() <= min_points_per_subset {
            return Node::Leaf { values };
        }
        let sah = SAH::select_optimal_splitting_plane(values, k);
        let ghost s = views(sah.og_list@);
        if !sah.has_candidate {
            // A single point admits no split plane.
            proof {
                assert(s.len() == 1);
                assert(s[0] == input[0]) by {
                    assert(s.to_multiset() == input.to_multiset());
                    assert(s.contains(s[0]));
                    assert(input.to_multiset().count(s[0]) > 0);
                    assert(input.contains(s[0]));
                }
                assert(s =~= input);
            }
            return Node::Leaf { values: sah.og_list };
        }
        let split_axis = sah.optimal_dimension;
        let min_cost = sah.sah_cost;
        let ghost v2 = sah.optimal_split_value_x2 as int;
        proof {
            // A degenerate chosen axis forces a zero-cost plane, so such an
            // input always lands in the leaf branch right below.
            if degenerate_on_chosen_axis(input, k as int) {
                lemma_degenerate_axis_cost_zero(input, s, split_axis as int, v2,
                    min_cost as int, k as int);
            }
        }
        if min_cost == 0 {
            // Degenerate plane: no split improves anything, so the whole
            // list becomes one leaf.
            return Node::Leaf { values: sah.og_list };
        }
        let (left_subset, right_subset, split_value_x2) = sah.spatial_partition_dataset();
        proof {
            lemma_partition_len(s, v2, split_axis as int);
            lemma_partition_multiset(s, v2, split_axis as int);
            lemma_partition_valid(s, v2, split_axis as int, k as int);
        }
        if left_subset.len() == 0 {
            // One-sided plane: every point is on or right of it; collapsing
            // into a leaf keeps every point and guarantees progress.
            proof {
                assert(views(right_subset@).to_multiset() =~= input.to_multiset());
            }
            return Node::Leaf { values: right_subset };
        }
        if right_subset.len() == 0 {
            proof {
                assert(views(left_subset@).to_multiset() =~= input.to_multiset());
            }
            return Node::Leaf { values: left_subset };
        }
        proof {
            lemma_multiset_same_len(s, input);
            assert(views(left_subset@).len() == left_subset@.len());
            assert(views(right_subset@).len() == right_subset@.len());
            assert(left_subset@.len() < values@.len());
            assert(right_subset@.len() < values@.len());
        }
        let ghost lviews = views(left_subset@);
        let ghost rviews = views(right_subset@);
        let ghost bound = vstd::math::max(min_points_per_subset as int, values@.len() as int);
        let left = Self::create_branch(left_subset, depth + 1, k, min_points_per_subset);
        let right = Self::create_branch(right_subset, depth + 1, k, min_points_per_subset);
        proof {
            lemma_leaf_buckets_weaken(left, vstd::math::max(min_points_per_subset as int,
                lviews.len() as int), bound);
            lemma_leaf_buckets_weaken(right, vstd::math::max(min_points_per_subset as int,
                rviews.len() as int), bound);
        }
        let node = Node::Internal {
            split_axis,
            split_value_x2,
            left: Box::new(left),
            right: Box::new(right),
        };
        proof {
            lemma_partition_membership(s, v2, split_axis as int);
            let lp = node_points(left);
            let rp = node_points(right);
            assert forall|i: int| 0 <= i < lp.len() implies 2 * (#[trigger] lp[i])[
                split_axis as int] < v2 by {
                assert(lp.contains(lp[i]));
                assert(lp.to_multiset().count(lp[i]) > 0);
                assert(lviews.contains(lp[i]));
                let j = choose|j: int| 0 <= j < lviews.len() && lviews[j] == lp[i];
                assert(2 * left_of(s, v2, split_axis as int)[j][split_axis as int] < v2);
            }
            assert forall|i: int| 0 <= i < rp.len() implies 2 * (#[trigger] rp[i])[
                split_axis as int] >= v2 by {
                assert(rp.contains(rp[i]));
                assert(rp.to_multiset().count(rp[i]) > 0);
                assert(rviews.contains(rp[i]));
                let j = choose|j: int| 0 <= j < rviews.len() && rviews[j] == rp[i];
                assert(2 * right_of(s, v2, split_axis as int)[j][split_axis as int] >= v2);
            }
            // The split value is a sum of two in-range coordinates.
            assert(-2 * (COORD_LIMIT as int) <= v2 <= 2 * (COORD_LIMIT as int)) by {
                let bi = choose|bi: int|
                    1 <= bi < s.len() && v2 == cand_v2(s, split_axis as int, bi)
                    && sah.sah_cost as int == #[trigger] cand_cost(s, split_axis as int,
                        k as int, bi)
                    && (forall|j: int| 1 <= j < s.len() ==> #[trigger] cand_cost(s,
                        split_axis as int, k as int, j) >= sah.sah_cost as int)
                    && (forall|j: int| 1 <= j < bi ==> cand_cost(s, split_axis as int,
                        k as int, j) > sah.sah_cost as int);
                assert(valid_point(s[bi - 1], k as int));
                assert(valid_point(s[bi], k as int));
            }
            assert(node_points(node) == node_points(left) + node_points(right));
            vstd::seq_lib::lemma_multiset_commutative(node_points(left), node_points(right));
        }
        node
    }
}

} // verus!
