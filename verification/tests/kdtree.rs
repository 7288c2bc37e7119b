use fnp::{BoundingBox, BuildError, ComparisonError, KDTree, Node, Point, Sortable, SAH};

fn p3(x: i64, y: i64, z: i64) -> Point {
    Point::new(vec![x, y, z])
}

#[test]
fn test_calculate_bounding_box() {
    let points = vec![p3(1, 2, 3), p3(2, 3, 4), p3(3, 4, 5), p3(4, 5, 6)];

    let bounding_box = BoundingBox::calculate_bounding_box(&points, 3);

    assert_eq!(bounding_box.min_coordinates, vec![1, 2, 3]);
    assert_eq!(bounding_box.max_coordinates, vec![4, 5, 6]);
}

#[test]
fn test_calculate_surface_area() {
    let bbox = BoundingBox {
        k: 3,
        min_coordinates: vec![0, 0, 0],
        max_coordinates: vec![1, 2, 3],
    };

    let surface_area = bbox.calculate_surface_area();

    // The expected surface area for a cuboid with sides 1, 2 and 3 is 22.
    assert_eq!(surface_area, 22);
}

#[test]
fn test_partition_dataset() {
    let points = vec![p3(1, 2, 3), p3(2, 3, 4), p3(3, 4, 5), p3(4, 5, 6)];

    // Split on the x dimension at 2.5: the doubled plane coordinate is 5.
    let (left, right) = fnp::partition_dataset(&points, 5, 0, 3);
    assert_eq!(left.len(), 2);
    assert_eq!(right.len(), 2);
    assert!(left.contains(&p3(1, 2, 3)));
    assert!(left.contains(&p3(2, 3, 4)));
    assert!(right.contains(&p3(3, 4, 5)));
    assert!(right.contains(&p3(4, 5, 6)));

    // Split on the y dimension at 3.5: the doubled plane coordinate is 7.
    let (left, right) = fnp::partition_dataset(&points, 7, 1, 3);
    assert_eq!(left.len(), 2);
    assert_eq!(right.len(), 2);
    assert!(left.contains(&p3(1, 2, 3)));
    assert!(left.contains(&p3(2, 3, 4)));
    assert!(right.contains(&p3(3, 4, 5)));
    assert!(right.contains(&p3(4, 5, 6)));

    // Split on the z dimension at 4.5: the doubled plane coordinate is 9.
    let (left, right) = fnp::partition_dataset(&points, 9, 2, 3);
    assert_eq!(left.len(), 2);
    assert_eq!(right.len(), 2);
    assert!(left.contains(&p3(1, 2, 3)));
    assert!(left.contains(&p3(2, 3, 4)));
    assert!(right.contains(&p3(3, 4, 5)));
    assert!(right.contains(&p3(4, 5, 6)));
}

#[test]
fn test_calculate_sah_cost() {
    let sorted_list = vec![p3(1, 2, 3), p3(4, 5, 6), p3(7, 8, 9)];

    // Split along the x axis at 2.5: the doubled plane coordinate is 5.
    let sah_cost = fnp::calculate_sah_cost(&sorted_list, 0, 3, 5);

    assert_eq!(sah_cost, 216);
}

#[test]
fn test_find_dimension_axis_with_largest_range() {
    let points = vec![p3(1, 2, 3), p3(4, 5, 6), p3(7, 8, 9)];

    let largest_range_axis = fnp::find_dimension_axis_with_largest_range(&points, 3);

    assert_eq!(largest_range_axis, 0);
}

#[test]
fn test_select_optimal_splitting_plane() {
    let points = vec![p3(1, 2, 3), p3(7, 8, 9), p3(4, 52, 6)];

    let optimal_splitting_plane = SAH::select_optimal_splitting_plane(points.clone(), 3);

    assert_eq!(optimal_splitting_plane.optimal_dimension, 1);
    // The plane sits at 30.0; its coordinate is stored doubled.
    assert_eq!(optimal_splitting_plane.optimal_split_value_x2, 60);
    assert_eq!(optimal_splitting_plane.sah_cost, 864);
    assert_eq!(optimal_splitting_plane.og_list, points);
}

#[test]
fn test_tree_constructor() {
    let points = vec![p3(1, 2, 3), p3(4, 52, 6), p3(7, 8, 9)];

    let sub_tree = SAH::get_constructor(points, 3);
    assert_eq!(sub_tree.0.unwrap(), vec![p3(1, 2, 3), p3(7, 8, 9)]);
    assert_eq!(sub_tree.1.unwrap(), vec![p3(4, 52, 6)]);
}

#[test]
fn test_distance_to() {
    // With integer coordinates the library reports the squared Euclidean
    // distance; between (1,2,3) and (4,5,6) it is 27.
    let p1 = p3(1, 2, 3);
    let p2 = p3(4, 5, 6);
    let distance_sq = p1.dist_sq_to(&p2, 3);
    assert_eq!(distance_sq, 27);
}

#[test]
fn test_find_closest() {
    let points = vec![
        p3(1, 1, 1),
        p3(2, 2, 2),
        p3(3, 3, 3),
        p3(4, 4, 4),
        p3(5, 5, 5),
    ];

    let root = KDTree::create_kd_tree(points, 3, 1).unwrap();
    let query_point = p3(0, 0, 0);

    let point_limit: usize = 2;

    let result = root.find_closest(&query_point, 3, point_limit);

    assert!(result.is_some());
    let best_points = result.unwrap();

    assert_eq!(best_points.len(), point_limit);
    assert_eq!(best_points[0].1, p3(1, 1, 1));
    assert_eq!(best_points[1].1, p3(2, 2, 2));
    assert_eq!(best_points[0].0, 3);
    assert_eq!(best_points[1].0, 12);
}

#[test]
fn test_sort_with_axis() {
    let a = p3(1, 9, 5);
    let b = p3(2, 3, 5);
    assert_eq!(a.sort_with_axis(&b, 0), std::cmp::Ordering::Less);
    assert_eq!(a.sort_with_axis(&b, 1), std::cmp::Ordering::Greater);
    assert_eq!(a.sort_with_axis(&b, 2), std::cmp::Ordering::Equal);
}

#[test]
fn test_sorting_nearest() {
    let a = (3i64, p3(1, 1, 1));
    let b = (12i64, p3(2, 2, 2));
    assert_eq!(fnp::sorting_nearest(&a, &b).unwrap(), std::cmp::Ordering::Less);
    assert_eq!(fnp::sorting_nearest(&b, &a).unwrap(), std::cmp::Ordering::Greater);
    assert_eq!(fnp::sorting_nearest(&a, &a).unwrap(), std::cmp::Ordering::Equal);
}

#[test]
fn test_direction() {
    assert_eq!(fnp::direction(4, 5), fnp::NodeDirection::LEFT);
    assert_eq!(fnp::direction(5, 5), fnp::NodeDirection::LEFT);
    assert_eq!(fnp::direction(6, 5), fnp::NodeDirection::RIGHT);
}

#[test]
fn test_comparison_error_message() {
    let err = ComparisonError::InvalidOrdering(String::from("broken"));
    assert_eq!(err.message(), "ORDERING ERROR");
}

#[test]
fn test_empty_input_error() {
    let result = KDTree::create_kd_tree(Vec::new(), 3, 1);
    assert_eq!(result.unwrap_err(), BuildError::EmptyInput);
}

#[test]
fn test_dimension_mismatch_error() {
    let points = vec![p3(1, 2, 3), Point::new(vec![4, 5])];
    let result = KDTree::create_kd_tree(points, 3, 1);
    assert_eq!(result.unwrap_err(), BuildError::DimensionMismatch);
}

#[test]
fn test_surface_area_two_dimensions() {
    // In two dimensions the perimetric surface degenerates to 4 * e0 * e1.
    let bbox = BoundingBox {
        k: 2,
        min_coordinates: vec![0, 0],
        max_coordinates: vec![2, 3],
    };
    assert_eq!(bbox.calculate_surface_area(), 24);
}

#[test]
fn test_find_closest_dimension_mismatch() {
    let points = vec![p3(1, 1, 1), p3(5, 5, 5)];
    let tree = KDTree::create_kd_tree(points, 3, 1).unwrap();
    assert!(tree.find_closest(&p3(0, 0, 0), 2, 1).is_none());
    assert!(tree.find_closest(&Point::new(vec![0, 0]), 3, 1).is_none());
}

#[test]
fn test_create_leaf_node() {
    let node = Node::create_leaf_node(vec![p3(9, 9, 9)]);
    match node {
        Node::Leaf { values } => assert_eq!(values, vec![p3(9, 9, 9)]),
        Node::Internal { .. } => panic!("a bucket must become a leaf"),
    }
}
