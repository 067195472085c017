use one_line::graph::{feasible_start_edges, Graph};
use one_line::solver::find_trails;

fn is_trail_of(edges: &[(i32, i32)], t: &[i32]) -> bool {
    let mut used: Vec<(i32, i32)> = Vec::new();
    for w in t.windows(2) {
        let (a, b) = (w[0], w[1]);
        let e = if a <= b { (a, b) } else { (b, a) };
        if !edges.iter().any(|&(x, y)| (x, y) == (a, b) || (x, y) == (b, a)) {
            return false;
        }
        if used.contains(&e) {
            return false;
        }
        used.push(e);
    }
    true
}

#[test]
fn triangle_from_one_uncapped() {
    let edges = vec![(1, 2), (2, 3), (3, 1)];
    let r = find_trails(&edges, 1, 0);
    assert_eq!(r.len(), 2);
    assert!(r.contains(&vec![1, 2, 3, 1]));
    assert!(r.contains(&vec![1, 3, 2, 1]));
    for t in &r {
        assert_eq!(t.len(), 4);
        assert_eq!(t[0], 1);
        assert!(is_trail_of(&edges, t));
    }
}

#[test]
fn path_from_middle_is_empty() {
    let edges = vec![(1, 2), (2, 3)];
    assert!(find_trails(&edges, 2, 0).is_empty());
}

#[test]
fn path_from_end_is_found() {
    let edges = vec![(1, 2), (2, 3)];
    assert_eq!(find_trails(&edges, 1, 0), vec![vec![1, 2, 3]]);
    assert_eq!(find_trails(&edges, 3, 0), vec![vec![3, 2, 1]]);
}

#[test]
fn cap_of_one_keeps_one() {
    let edges = vec![(1, 2), (2, 3), (3, 1)];
    let r = find_trails(&edges, 1, 1);
    assert_eq!(r.len(), 1);
    assert!(is_trail_of(&edges, &r[0]));
}

#[test]
fn uncapped_finds_at_least_as_many() {
    let edges = vec![(1, 2), (2, 3), (3, 1), (3, 4), (4, 5), (5, 3)];
    let all = find_trails(&edges, 3, 0);
    assert_eq!(all.len(), 8);
    for cap in 1..10 {
        let some = find_trails(&edges, 3, cap);
        assert!(some.len() <= all.len());
        assert_eq!(some.len(), std::cmp::min(cap as usize, all.len()));
        for t in &some {
            assert!(all.contains(t));
        }
    }
}

#[test]
fn no_edges_no_solutions() {
    let edges: Vec<(i32, i32)> = Vec::new();
    for start in [-1, 0, 1, 7] {
        assert!(find_trails(&edges, start, 0).is_empty());
        assert!(find_trails(&edges, start, 3).is_empty());
    }
}

#[test]
fn negative_cap_searches_nothing() {
    let edges = vec![(1, 2), (2, 3), (3, 1)];
    assert!(find_trails(&edges, 1, -1).is_empty());
}

#[test]
fn four_odd_points_rejected() {
    let edges = vec![(1, 2), (1, 3), (1, 4)];
    for start in 1..5 {
        assert!(find_trails(&edges, start, 0).is_empty());
    }
}

#[test]
fn start_outside_graph_finds_nothing() {
    let edges = vec![(1, 2), (2, 3), (3, 1)];
    assert!(find_trails(&edges, 9, 0).is_empty());
}

#[test]
fn repeated_edge_collapses() {
    let edges = vec![(1, 2), (1, 2)];
    assert!(find_trails(&edges, 1, 0).is_empty());
}

#[test]
fn disconnected_even_graph_has_no_drawing() {
    let edges = vec![(1, 2), (2, 3), (3, 1), (4, 5), (5, 6), (6, 4)];
    assert!(find_trails(&edges, 1, 0).is_empty());
}

#[test]
fn every_drawing_uses_every_edge() {
    let edges = vec![(0, 1), (1, 2), (2, 0), (0, 3), (3, 4), (4, 0)];
    let r = find_trails(&edges, 0, 0);
    assert!(!r.is_empty());
    for t in &r {
        assert_eq!(t.len(), edges.len() + 1);
        assert_eq!(t[0], 0);
        assert!(is_trail_of(&edges, t));
    }
}

#[test]
fn graph_build_is_symmetric() {
    let g = Graph::build(&vec![(1, 2), (2, 3), (1, 2)]);
    assert_eq!(g.verts, vec![1, 2, 3]);
    assert_eq!(g.adj, vec![vec![2], vec![1, 3], vec![2]]);
}

#[test]
fn parity_test_cases() {
    let path = vec![(1, 2), (2, 3)];
    assert!(feasible_start_edges(&path, 1));
    assert!(feasible_start_edges(&path, 3));
    assert!(!feasible_start_edges(&path, 2));
    let triangle = vec![(1, 2), (2, 3), (3, 1)];
    assert!(feasible_start_edges(&triangle, 2));
    assert!(feasible_start_edges(&triangle, 9));
    let star = vec![(1, 2), (1, 3), (1, 4)];
    assert!(!feasible_start_edges(&star, 1));
}
