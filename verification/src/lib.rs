//! A k-dimensional spatial index built by surface-area-heuristic (SAH)
//! partitioning and queried by k-nearest-neighbour search.
//!
//! Coordinates are plain integers, so every comparison, bounding-box
//! surface area and SAH cost in the library is exact.  A split plane sits
//! midway between two coordinates; to keep it exact it is stored doubled
//! (`split_value_x2` is twice the plane's coordinate).

mod bounding_box;
mod error_handler;
mod kd_tree;
mod node;
mod point;
mod sah;
mod search;
mod seq_facts;
mod sortable;

pub use bounding_box::{surface_area_of, BoundingBox};
pub use error_handler::ComparisonError;
pub use kd_tree::{BuildError, KDTree};
pub use node::{leaf_buckets_within, node_points, wf_node, Node, NodeDirection};
pub use point::{dist_sq, valid_point, views, Point, COORD_LIMIT, MAX_DIMENSION};
pub use sah::{calculate_sah_cost, find_dimension_axis_with_largest_range,
    multi_dimensional_sort, partition_dataset, sah_cost_of, SAH};
pub use search::{best_dists, direction, find_closest_brute_force, is_k_best,
    lemma_k_best_agreement, lemma_same_points_same_query_dists, sorting_nearest};
pub use sortable::Sortable;
