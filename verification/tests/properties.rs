use fnp::{KDTree, Node, Point};

fn p3(x: i64, y: i64, z: i64) -> Point {
    Point::new(vec![x, y, z])
}

fn collect_points(node: &Node, out: &mut Vec<Vec<i64>>) {
    match node {
        Node::Leaf { values } => {
            for p in values {
                out.push(p.coords.clone());
            }
        }
        Node::Internal { left, right, .. } => {
            collect_points(left, out);
            collect_points(right, out);
        }
    }
}

fn check_leaves_non_empty(node: &Node) {
    match node {
        Node::Leaf { values } => assert!(!values.is_empty()),
        Node::Internal { left, right, .. } => {
            check_leaves_non_empty(left);
            check_leaves_non_empty(right);
        }
    }
}

fn check_separation(node: &Node) {
    if let Node::Internal { split_axis, split_value_x2, left, right } = node {
        let mut left_pts = Vec::new();
        let mut right_pts = Vec::new();
        collect_points(left, &mut left_pts);
        collect_points(right, &mut right_pts);
        for p in &left_pts {
            assert!(2 * p[*split_axis] < *split_value_x2);
        }
        for p in &right_pts {
            assert!(2 * p[*split_axis] >= *split_value_x2);
        }
        check_separation(left);
        check_separation(right);
    }
}

fn sample_points() -> Vec<Point> {
    let mut points = Vec::new();
    let mut v: i64 = 3;
    for _ in 0..40 {
        // A fixed linear-congruential walk: arbitrary but reproducible.
        let x = v % 50;
        v = (v * 31 + 17) % 1009;
        let y = v % 50;
        v = (v * 31 + 17) % 1009;
        let z = v % 50;
        v = (v * 31 + 17) % 1009;
        points.push(p3(x, y, z));
    }
    points
}

#[test]
fn test_tree_contains_all_points() {
    let points = sample_points();
    let mut expected: Vec<Vec<i64>> = points.iter().map(|p| p.coords.clone()).collect();
    let tree = KDTree::create_kd_tree(points, 3, 4).unwrap();
    let mut reachable = Vec::new();
    collect_points(&tree.root, &mut reachable);
    expected.sort();
    reachable.sort();
    assert_eq!(expected, reachable);
}

#[test]
fn test_leaves_non_empty() {
    let points = sample_points();
    let tree = KDTree::create_kd_tree(points, 3, 4).unwrap();
    check_leaves_non_empty(&tree.root);
}

#[test]
fn test_split_separation() {
    let points = sample_points();
    let tree = KDTree::create_kd_tree(points, 3, 2).unwrap();
    check_separation(&tree.root);
}

#[test]
fn test_result_sorted_and_sized() {
    let points = sample_points();
    let n = points.len();
    let tree = KDTree::create_kd_tree(points, 3, 3).unwrap();
    let query = p3(25, 25, 25);
    for limit in [1usize, 2, 7, n, n + 5] {
        let result = tree.find_closest(&query, 3, limit).unwrap();
        assert_eq!(result.len(), limit.min(n));
        for w in result.windows(2) {
            assert!(w[0].0 <= w[1].0);
        }
    }
}

#[test]
fn test_agreement_with_brute_force() {
    let points = sample_points();
    let queries = [p3(0, 0, 0), p3(25, 25, 25), p3(49, 3, 17), p3(100, -7, 31)];
    for threshold in [1usize, 4, 100] {
        let tree = KDTree::create_kd_tree(points.clone(), 3, threshold).unwrap();
        for query in &queries {
            for limit in [1usize, 3, 10, points.len()] {
                let fast = tree.find_closest(query, 3, limit).unwrap();
                let slow = fnp::find_closest_brute_force(&points, query, 3, limit).unwrap();
                let fast_dists: Vec<i64> = fast.iter().map(|e| e.0).collect();
                let slow_dists: Vec<i64> = slow.iter().map(|e| e.0).collect();
                assert_eq!(fast_dists, slow_dists);
            }
        }
    }
}

#[test]
fn test_build_twice_same_results() {
    let points = sample_points();
    let t1 = KDTree::create_kd_tree(points.clone(), 3, 3).unwrap();
    let t2 = KDTree::create_kd_tree(points, 3, 3).unwrap();
    let query = p3(11, 44, 2);
    let r1 = t1.find_closest(&query, 3, 6).unwrap();
    let r2 = t2.find_closest(&query, 3, 6).unwrap();
    assert_eq!(r1, r2);
}

#[test]
fn test_find_closest_deterministic() {
    let points = sample_points();
    let tree = KDTree::create_kd_tree(points, 3, 3).unwrap();
    let query = p3(7, 7, 7);
    let r1 = tree.find_closest(&query, 3, 5).unwrap();
    let r2 = tree.find_closest(&query, 3, 5).unwrap();
    assert_eq!(r1, r2);
}

#[test]
fn test_single_point_tree() {
    let tree = KDTree::create_kd_tree(vec![p3(4, 5, 6)], 3, 1).unwrap();
    match &tree.root {
        Node::Leaf { values } => assert_eq!(values, &vec![p3(4, 5, 6)]),
        Node::Internal { .. } => panic!("a single point must make a single leaf"),
    }
    let result = tree.find_closest(&p3(1, 2, 3), 3, 10).unwrap();
    assert_eq!(result.len(), 1);
    assert_eq!(result[0], (27, p3(4, 5, 6)));
}

#[test]
fn test_small_input_single_leaf() {
    let points = vec![p3(1, 2, 3), p3(9, 0, 4), p3(5, 5, 5)];
    let tree = KDTree::create_kd_tree(points.clone(), 3, 3).unwrap();
    match &tree.root {
        Node::Leaf { values } => assert_eq!(values, &points),
        Node::Internal { .. } => panic!("a bucket within the threshold must stay one leaf"),
    }
    let result = tree.find_closest(&p3(5, 5, 5), 3, 1).unwrap();
    assert_eq!(result[0], (0, p3(5, 5, 5)));
}

#[test]
fn test_degenerate_axis_leaf() {
    // Identical points leave every axis without range: the degenerate
    // branch collapses them into one leaf, and queries still see them all.
    let points = vec![p3(7, 7, 7); 5];
    let tree = KDTree::create_kd_tree(points, 3, 1).unwrap();
    assert!(matches!(&tree.root, Node::Leaf { .. }));
    let result = tree.find_closest(&p3(7, 7, 8), 3, 5).unwrap();
    assert_eq!(result.len(), 5);
    for entry in &result {
        assert_eq!(entry.0, 1);
        assert_eq!(entry.1, p3(7, 7, 7));
    }
}

#[test]
fn test_zero_cost_split_keeps_points() {
    // Two points on a line: every bounding box is flat, so the chosen
    // plane costs zero, yet both points must survive into the tree.
    let points = vec![p3(0, 0, 0), p3(10, 0, 0)];
    let tree = KDTree::create_kd_tree(points, 3, 1).unwrap();
    let result = tree.find_closest(&p3(4, 0, 0), 3, 2).unwrap();
    assert_eq!(result.len(), 2);
    assert_eq!(result[0], (16, p3(0, 0, 0)));
    assert_eq!(result[1], (36, p3(10, 0, 0)));
}

#[test]
fn test_limit_zero_returns_empty() {
    let points = vec![p3(1, 1, 1), p3(2, 2, 2)];
    let tree = KDTree::create_kd_tree(points.clone(), 3, 1).unwrap();
    let result = tree.find_closest(&p3(0, 0, 0), 3, 0);
    assert_eq!(result, Some(Vec::new()));
    let brute = fnp::find_closest_brute_force(&points, &p3(0, 0, 0), 3, 0);
    assert_eq!(brute, Some(Vec::new()));
}

#[test]
fn test_limit_exceeds_points() {
    let points = sample_points();
    let n = points.len();
    let tree = KDTree::create_kd_tree(points, 3, 2).unwrap();
    let result = tree.find_closest(&p3(-3, 60, 12), 3, n + 100).unwrap();
    assert_eq!(result.len(), n);
}

#[test]
fn test_brute_force_rejects_invalid() {
    let points = vec![p3(1, 1, 1)];
    assert!(fnp::find_closest_brute_force(&points, &p3(0, 0, 0), 0, 1).is_none());
    let short = vec![Point::new(vec![1, 1])];
    assert!(fnp::find_closest_brute_force(&short, &p3(0, 0, 0), 3, 1).is_none());
}

#[test]
fn test_query_out_of_range_is_rejected() {
    let points = vec![p3(1, 1, 1), p3(2, 2, 2)];
    let tree = KDTree::create_kd_tree(points, 3, 1).unwrap();
    let far_query = Point::new(vec![fnp::COORD_LIMIT + 1, 0, 0]);
    assert!(tree.find_closest(&far_query, 3, 1).is_none());
}

#[test]
fn test_two_dimensional_tree() {
    let points = vec![
        Point::new(vec![0, 0]),
        Point::new(vec![10, 0]),
        Point::new(vec![0, 10]),
        Point::new(vec![10, 10]),
        Point::new(vec![4, 5]),
    ];
    let tree = KDTree::create_kd_tree(points.clone(), 2, 1).unwrap();
    let result = tree.find_closest(&Point::new(vec![3, 4]), 2, 2).unwrap();
    assert_eq!(result[0], (2, Point::new(vec![4, 5])));
    assert_eq!(result[1], (25, Point::new(vec![0, 0])));
    let slow = fnp::find_closest_brute_force(&points, &Point::new(vec![3, 4]), 2, 2).unwrap();
    assert_eq!(result, slow);
}

#[test]
fn test_multi_dimensional_sort_orders_axis() {
    let points = vec![p3(5, 1, 9), p3(2, 8, 7), p3(9, 3, 1)];
    let sorted = fnp::multi_dimensional_sort(points, 1, 3);
    assert_eq!(sorted, vec![p3(5, 1, 9), p3(9, 3, 1), p3(2, 8, 7)]);
}

#[test]
fn test_ties_keep_distance_multiset() {
    // Four points at the same distance from the query: whichever points
    // are returned, the distances must be the two smallest.
    let points = vec![p3(1, 0, 0), p3(-1, 0, 0), p3(0, 1, 0), p3(0, -1, 0), p3(3, 0, 0)];
    let tree = KDTree::create_kd_tree(points.clone(), 3, 1).unwrap();
    let result = tree.find_closest(&p3(0, 0, 0), 3, 2).unwrap();
    assert_eq!(result.len(), 2);
    assert_eq!(result[0].0, 1);
    assert_eq!(result[1].0, 1);
    for entry in &result {
        assert!(points.contains(&entry.1));
    }
}
