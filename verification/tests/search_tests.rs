use tour_search::engine::{
    expand, indices_to_nodes, run_search, Incumbent, SearchOutcome, Solution,
};
use tour_search::geometry::Node;
use tour_search::precompute::calc_angles_distances;
use tour_search::tasks::{generate_start_paths, SearchTask};

fn node(x: i64, y: i64) -> Node {
    Node { x, y }
}

/// Five points in an L shape; the only angle-admissible Hamiltonian path
/// (up to reversal) walks the L from one end to the other, total length
/// 4000 grid units.
fn l_shape() -> Vec<Node> {
    vec![
        node(0, 0),
        node(0, 1000),
        node(0, 2000),
        node(1000, 2000),
        node(2000, 2000),
    ]
}

#[test]
fn seeds_sorted_ascending_and_admissible() {
    let nodes = l_shape();
    let (angles, distances) = calc_angles_distances(&nodes);
    let seeds = generate_start_paths(&nodes, &angles, &distances);
    assert!(!seeds.is_empty());
    for s in &seeds {
        assert_eq!(s.path.len(), 3);
        let (i, j, k) = (s.path[0], s.path[1], s.path[2]);
        assert!(i != j && j != k && i != k);
        assert!(nodes[j].wide_turn(&nodes[i], &nodes[k]));
        assert_eq!(s.length, distances[i][j] + distances[j][k]);
    }
    for w in seeds.windows(2) {
        assert!(w[0].length <= w[1].length);
    }
    // The straight start along the vertical arm is among the seeds.
    assert!(seeds.iter().any(|s| s.path == vec![0, 1, 2]));
}

#[test]
fn seeds_carry_no_duplicate_paths() {
    let nodes = l_shape();
    let (angles, distances) = calc_angles_distances(&nodes);
    let seeds = generate_start_paths(&nodes, &angles, &distances);
    for a in 0..seeds.len() {
        for b in (a + 1)..seeds.len() {
            assert_ne!(seeds[a].path, seeds[b].path);
        }
    }
    // At most one seed per ordered triple of five nodes.
    assert!(seeds.len() <= 5 * 5 * 5);
}

#[test]
fn ample_budget_forces_exhaustion() {
    // Five nodes: a budget of (5 + 1)^(5 + 2) expansions can never be the
    // binding constraint, so the run must report an exhaustive search.
    let nodes = l_shape();
    let budget: u64 = 6 * 6 * 6 * 6 * 6 * 6 * 6;
    let report = run_search(&nodes, budget);
    assert!(matches!(report.outcome, SearchOutcome::Exhausted(Some(_))));
}

#[test]
fn incumbent_accepts_only_strict_improvements() {
    let mut inc = Incumbent::new();
    assert_eq!(inc.current_bound(), None);
    // The first candidate is always accepted.
    assert!(inc.try_improve(Solution { path: vec![0, 1, 2], length: 50 }));
    assert_eq!(inc.current_bound(), Some(50));
    // An equal length is rejected: ties cannot improve.
    assert!(!inc.try_improve(Solution { path: vec![2, 1, 0], length: 50 }));
    assert_eq!(inc.current_bound(), Some(50));
    // A longer candidate is rejected.
    assert!(!inc.try_improve(Solution { path: vec![1, 0, 2], length: 60 }));
    // A strictly shorter candidate is accepted.
    assert!(inc.try_improve(Solution { path: vec![1, 2, 0], length: 49 }));
    assert_eq!(inc.current_bound(), Some(49));
    // The acceptance log strictly decreases.
    assert_eq!(inc.accepted, vec![50, 49]);
    for w in inc.accepted.windows(2) {
        assert!(w[0] > w[1]);
    }
}

#[test]
fn expand_completes_and_prunes() {
    let nodes = l_shape();
    let (angles, distances) = calc_angles_distances(&nodes);
    // A full tour offered to an empty register is accepted.
    let full = SearchTask { path: vec![0, 1, 2, 3, 4], length: 4000 };
    let mut inc = Incumbent::new();
    let children = expand(&nodes, &angles, &distances, full, &mut inc);
    assert!(children.is_empty());
    assert_eq!(inc.current_bound(), Some(4000));
    // A partial path already as long as the bound is pruned: on a line of
    // five points the end-to-end tour has length 4000, and the wide seed
    // [0, 2, 4] already spans the same 4000.
    let line: Vec<Node> = (0..5).map(|i| node(i * 1000, 0)).collect();
    let (langles, ldistances) = calc_angles_distances(&line);
    let mut tight = Incumbent::new();
    assert!(tight.try_improve(Solution { path: vec![0, 1, 2, 3, 4], length: 4000 }));
    let wide_seed = SearchTask { path: vec![0, 2, 4], length: 4000 };
    let pruned = expand(&line, &langles, &ldistances, wide_seed, &mut tight);
    assert!(pruned.is_empty());
    assert_eq!(tight.current_bound(), Some(4000));
    // An unpruned partial path yields one child per admissible free
    // successor, nearest last (the top of a work stack).
    let seed = SearchTask { path: vec![0, 1, 2], length: 2000 };
    let mut empty = Incumbent::new();
    let kids = expand(&nodes, &angles, &distances, seed, &mut empty);
    let tails: Vec<usize> = kids.iter().map(|c| *c.path.last().unwrap()).collect();
    assert_eq!(tails, vec![4, 3]);
    for c in &kids {
        assert_eq!(c.path[0..3], [0, 1, 2]);
        assert_eq!(c.path.len(), 4);
    }
}

#[test]
fn l_shape_unique_tour_found_exactly() {
    let nodes = l_shape();
    let report = run_search(&nodes, u64::MAX);
    match report.outcome {
        SearchOutcome::Exhausted(Some(best)) => {
            assert_eq!(best.length, 4000);
            assert_eq!(best.path, vec![0, 1, 2, 3, 4]);
        },
        _ => panic!("expected an exhaustive run with a solution"),
    }
    // Every accepted improvement was strict, and the last one is the best.
    assert!(!report.accepted.is_empty());
    for w in report.accepted.windows(2) {
        assert!(w[0] > w[1]);
    }
    assert_eq!(*report.accepted.last().unwrap(), 4000);
}

#[test]
fn solution_is_permutation_with_positive_length() {
    let nodes = l_shape();
    let report = run_search(&nodes, u64::MAX);
    let best = match report.outcome {
        SearchOutcome::Exhausted(Some(best)) => best,
        _ => panic!("expected a solution"),
    };
    assert_eq!(best.path.len(), nodes.len());
    let mut seen = best.path.clone();
    seen.sort();
    assert_eq!(seen, vec![0, 1, 2, 3, 4]);
    assert!(best.length > 0);
}

#[test]
fn zero_budget_reports_budget_exhaustion_not_infeasibility() {
    let nodes = l_shape();
    let report = run_search(&nodes, 0);
    assert!(matches!(report.outcome, SearchOutcome::BudgetExceeded(None)));
    assert!(report.accepted.is_empty());
    assert_eq!(report.iterations, 0);
}

#[test]
fn too_small_budget_reports_budget_exhaustion() {
    let nodes = l_shape();
    // One expansion cannot complete a five-node tour from a three-node
    // seed.
    let report = run_search(&nodes, 1);
    assert!(matches!(report.outcome, SearchOutcome::BudgetExceeded(None)));
    assert_eq!(report.iterations, 1);
}

#[test]
fn rerun_is_deterministic() {
    let nodes = l_shape();
    let first = run_search(&nodes, u64::MAX);
    let second = run_search(&nodes, u64::MAX);
    let (b1, b2) = match (first.outcome, second.outcome) {
        (SearchOutcome::Exhausted(Some(b1)), SearchOutcome::Exhausted(Some(b2))) => (b1, b2),
        _ => panic!("expected two exhaustive runs with solutions"),
    };
    assert_eq!(b1.length, b2.length);
    assert_eq!(b1.path, b2.path);
    assert_eq!(first.accepted, second.accepted);
}

#[test]
fn tiny_inputs_have_no_solution() {
    for n in 0..3 {
        let nodes: Vec<Node> = (0..n).map(|i| node(i * 1000, 0)).collect();
        let report = run_search(&nodes, u64::MAX);
        assert!(matches!(report.outcome, SearchOutcome::Exhausted(None)));
        assert!(report.accepted.is_empty());
    }
}

#[test]
fn coincident_points_make_search_infeasible() {
    // Two coincident points make every turn through them fully crooked,
    // so no three-node seed exists: the search is exhaustive and empty.
    let nodes = vec![node(0, 0), node(0, 0), node(1000, 0)];
    let report = run_search(&nodes, u64::MAX);
    assert!(matches!(report.outcome, SearchOutcome::Exhausted(None)));
}

#[test]
fn collinear_points_walked_end_to_end() {
    let nodes: Vec<Node> = (0..5).map(|i| node(i * 1000, 0)).collect();
    let report = run_search(&nodes, u64::MAX);
    match report.outcome {
        SearchOutcome::Exhausted(Some(best)) => {
            assert_eq!(best.length, 4000);
            let first = best.path[0];
            assert!(first == 0 || first == 4);
        },
        _ => panic!("expected a solution on the line"),
    }
}

#[test]
fn indices_to_nodes_maps_in_order() {
    let nodes = l_shape();
    let path = vec![2usize, 0, 4];
    let picked = indices_to_nodes(nodes.clone(), &path);
    assert_eq!(picked.len(), 3);
    assert_eq!(picked[0], nodes[2]);
    assert_eq!(picked[1], nodes[0]);
    assert_eq!(picked[2], nodes[4]);
}
