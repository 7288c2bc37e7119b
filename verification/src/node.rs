use vstd::prelude::*;
use crate::point::{Point, views, valid_points, COORD_LIMIT};

verus! {

/// Which child of an internal node a step descends to.
#[derive(Debug, Clone, Copy, PartialEq, Eq, Structural)]
pub enum NodeDirection {
    LEFT,
    RIGHT,
    NOWHERE,
}

/// A node of the spatial index: a leaf owning a bucket of points, or an
/// internal node owning a split plane and two children.  The plane's
/// coordinate on `split_axis` is `split_value_x2 / 2`; it is stored doubled
/// so that planes midway between integer coordinates stay exact.
#[derive(Debug)]
pub enum Node {
    Leaf { values: Vec<Point> },
    Internal { split_axis: usize, split_value_x2: i64, left: Box<Node>, right: Box<Node> },
}

/// The coordinate sequences of every point under a node, left to right.
pub open spec fn node_points(n: Node) -> Seq<Seq<int>>
    decreases n,
{
    match n {
        Node::Leaf { values } => views(values@),
        Node::Internal { left, right, .. } => node_points(*left) + node_points(*right),
    }
}

/// Structural soundness of a subtree of a tree of dimensionality `k`:
/// leaf buckets are non-empty and hold valid points; an internal node splits
/// on an axis of the tree, both its children are sound and non-empty, every
/// point under its left child lies strictly left of its plane, and every
/// point under its right child lies on or right of it.
pub open spec fn wf_node(n: Node, k: int) -> bool
    decreases n,
{
    match n {
        Node::Leaf { values } => {
            &&& values@.len() >= 1
            &&& valid_points(views(values@), k)
        },
        Node::Internal { split_axis, split_value_x2, left, right } => {
            &&& 0 <= split_axis < k
            &&& -2 * (COORD_LIMIT as int) <= split_value_x2 as int <= 2 * (COORD_LIMIT as int)
            &&& wf_node(*left, k)
            &&& wf_node(*right, k)
            &&& forall|i: int| 0 <= i < node_points(*left).len()
                ==> 2 * (#[trigger] node_points(*left)[i])[split_axis as int]
                    < split_value_x2 as int
            &&& forall|i: int| 0 <= i < node_points(*right).len()
                ==> 2 * (#[trigger] node_points(*right)[i])[split_axis as int]
                    >= split_value_x2 as int
        },
    }
}

/// Every leaf bucket under the node holds at most `bound` points.
pub open spec fn leaf_buckets_within(n: Node, bound: int) -> bool
    decreases n,
{
    match n {
        Node::Leaf { values } => values@.len() <= bound,
        Node::Internal { left, right, .. } => leaf_buckets_within(*left, bound)
            && leaf_buckets_within(*right, bound),
    }
}

/// A bucket bound may be relaxed.
pub proof fn lemma_leaf_buckets_weaken(n: Node, bound1: int, bound2: int)
    requires
        leaf_buckets_within(n, bound1),
        bound1 <= bound2,
    ensures
        leaf_buckets_within(n, bound2),
    decreases n,
{
    match n {
        Node::Leaf { .. } => {},
        Node::Internal { left, right, .. } => {
            lemma_leaf_buckets_weaken(*left, bound1, bound2);
            lemma_leaf_buckets_weaken(*right, bound1, bound2);
        },
    }
}

/// A sound subtree holds at least one point, and only valid ones.
pub proof fn lemma_node_points_valid(n: Node, k: int)
    requires
        wf_node(n, k),
    ensures
        node_points(n).len() >= 1,
        valid_points(node_points(n), k),
    decreases n,
{
    match n {
        Node::Leaf { values } => {},
        Node::Internal { left, right, .. } => {
            lemma_node_points_valid(*left, k);
            lemma_node_points_valid(*right, k);
            let l = node_points(*left);
            let r = node_points(*right);
            assert(forall|i: int| 0 <= i < l.len() ==> (l + r)[i] == #[trigger] l[i]);
            assert(forall|i: int| l.len() <= i < l.len() + r.len()
                ==> (l + r)[i] == #[trigger] r[i - l.len()]);
        },
    }
}

impl Node {
    /// Wraps a non-empty bucket of points as a leaf.
    pub fn create_leaf_node(values: Vec<Point>) -> (r: Node)
        ensures
            r == (Node::Leaf { values }),
            node_points(r) == views(values@),
    {
        Node::Leaf { values }
    }

    /// True when the node is a leaf.
    pub fn is_leaf(&self) -> (r: bool)
        ensures
            r <==> self matches Node::Leaf { .. },
    {
        match self {
            Node::Leaf { .. } => true,
            Node::Internal { .. } => false,
        }
    }
}

} // verus!
