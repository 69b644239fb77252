use tour_search::geometry::{isqrt, Node, COORD_LIMIT};
use tour_search::precompute::{calc_angles_distances, path_len};

fn node(x: i64, y: i64) -> Node {
    Node { x, y }
}

#[test]
fn isqrt_small_values() {
    assert_eq!(isqrt(0), 0);
    assert_eq!(isqrt(1), 1);
    assert_eq!(isqrt(2), 1);
    assert_eq!(isqrt(3), 1);
    assert_eq!(isqrt(4), 2);
    assert_eq!(isqrt(15), 3);
    assert_eq!(isqrt(16), 4);
    assert_eq!(isqrt(1_000_000), 1000);
    assert_eq!(isqrt(999_999), 999);
}

#[test]
fn isqrt_large_values() {
    // Largest squared distance on the grid: both coordinates spanning the
    // whole range.
    assert_eq!(isqrt(8_000_000_000_000), 2_828_427);
    assert_eq!(isqrt(u64::MAX), 4_294_967_295);
}

#[test]
fn distance_exact_values() {
    // A 3-4-5 triangle, scaled to the grid.
    assert_eq!(node(0, 0).distance(&node(3, 4)), 5);
    assert_eq!(node(0, 0).distance(&node(300, 400)), 500);
    // Zero exactly on coincident nodes.
    assert_eq!(node(7, -2).distance(&node(7, -2)), 0);
    // Symmetric.
    assert_eq!(node(-5, 9).distance(&node(12, 1)), node(12, 1).distance(&node(-5, 9)));
    // Rounded down to the grid unit.
    assert_eq!(node(0, 0).distance(&node(1, 1)), 1);
    // The extreme corners of the grid.
    assert_eq!(
        node(-COORD_LIMIT, -COORD_LIMIT).distance(&node(COORD_LIMIT, COORD_LIMIT)),
        2_828_427,
    );
}

#[test]
fn wide_turn_boundary() {
    // Exactly a right angle: included.
    let prev = node(0, 0);
    let cur = node(0, 1000);
    let next = node(1000, 1000);
    assert!(cur.wide_turn(&prev, &next));
    // Slightly less than a right angle: excluded.
    let next_narrow = node(1000, 999);
    assert!(!cur.wide_turn(&prev, &next_narrow));
    // Wider than a right angle (a straight line): included.
    let next_straight = node(0, 2000);
    assert!(cur.wide_turn(&prev, &next_straight));
    // A sharp turn back: excluded.
    let next_back = node(0, 500);
    assert!(!cur.wide_turn(&prev, &next_back));
}

#[test]
fn wide_turn_degenerate_points_are_inadmissible() {
    // A turn at a point coinciding with a neighbour is treated as fully
    // crooked rather than undefined.
    let p = node(100, 100);
    let q = node(200, 300);
    assert!(!p.wide_turn(&p, &q));
    assert!(!p.wide_turn(&q, &p));
    assert!(!p.wide_turn(&p, &p));
}

#[test]
fn distance_matrix_symmetric_zero_diagonal() {
    let nodes = vec![node(0, 0), node(1000, 0), node(250, 750), node(-400, 333)];
    let (_, distances) = calc_angles_distances(&nodes);
    for i in 0..nodes.len() {
        assert_eq!(distances[i][i], 0);
        for j in 0..nodes.len() {
            assert_eq!(distances[i][j], distances[j][i]);
            assert_eq!(distances[i][j], nodes[i].distance(&nodes[j]));
        }
    }
}

#[test]
fn adjacency_membership_is_exact() {
    // Node 1 sits at a right angle between node 0 and node 2, and at a
    // narrower angle towards node 3.
    let nodes = vec![node(0, 0), node(0, 1000), node(1000, 1000), node(1000, 999)];
    let (angles, _) = calc_angles_distances(&nodes);
    // Exactly 90 degrees is admissible.
    assert!(angles[0][1].contains(&2));
    // Just below 90 degrees is not.
    assert!(!angles[0][1].contains(&3));
    // Neither the previous nor the current node is ever a candidate.
    assert!(!angles[0][1].contains(&0));
    assert!(!angles[0][1].contains(&1));
    // The diagonal key (previous == current) holds no candidates.
    assert!(angles[1][1].is_empty());
}

#[test]
fn adjacency_candidates_sorted_by_distance() {
    // From node 1, straight continuations at different distances.
    let nodes = vec![
        node(0, 0),
        node(0, 1000),
        node(0, 4000),
        node(0, 2000),
        node(0, 3000),
    ];
    let (angles, distances) = calc_angles_distances(&nodes);
    let cands = &angles[0][1];
    assert_eq!(cands, &vec![3, 4, 2]);
    for w in cands.windows(2) {
        assert!(distances[1][w[0]] <= distances[1][w[1]]);
    }
}

#[test]
fn path_len_sums_edges() {
    let nodes = vec![node(0, 0), node(0, 1000), node(1000, 1000), node(1000, 2000)];
    let (_, distances) = calc_angles_distances(&nodes);
    let path = vec![0usize, 1, 2, 3];
    assert_eq!(path_len(&path, &distances), 3000);
    let single = vec![2usize];
    assert_eq!(path_len(&single, &distances), 0);
    let hop = vec![0usize, 2];
    assert_eq!(path_len(&hop, &distances), 1414);
}
