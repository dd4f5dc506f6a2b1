use couaincre::graph::{ConfigError, Graph};
use couaincre::heuristic::TDHeuristic;
use couaincre::tree_decomposition::TreeDecomposition;

fn clauses(raw: &[&[i64]]) -> Vec<Vec<i64>> {
    raw.iter().map(|c| c.to_vec()).collect()
}

fn sorted(mut v: Vec<usize>) -> Vec<usize> {
    v.sort_unstable();
    v
}

fn roots(td: &TreeDecomposition) -> Vec<usize> {
    td.parents()
        .iter()
        .enumerate()
        .filter(|(_, p)| p.is_none())
        .map(|(k, _)| k)
        .collect()
}

#[test]
fn two_disjoint_edges_min_deg() {
    // p cnf 4 2 / 1 2 0 / 3 4 0: two disjoint edges.
    let cls = clauses(&[&[1, 2], &[3, 4]]);
    let td = TreeDecomposition::new(4, &cls, &TDHeuristic::MinDeg).unwrap();
    assert_eq!(td.width(), 1);
    // Two components give two roots.
    assert_eq!(roots(&td).len(), 2);
    // Each component contributes its pair bag.
    let bags: Vec<Vec<usize>> = td.bags().iter().map(|b| b.clone()).collect();
    assert!(bags.contains(&vec![0, 1]));
    assert!(bags.contains(&vec![2, 3]));
    assert!(td.check_running_intersection());
    assert!(td.check_no_redundant_bags());
}

#[test]
fn two_disjoint_edges_primal_graph() {
    let cls = clauses(&[&[1, 2], &[3, 4]]);
    let g = Graph::from_clauses(4, &cls).unwrap();
    assert!(g.has_edge(0, 1));
    assert!(g.has_edge(1, 0));
    assert!(g.has_edge(2, 3));
    assert!(!g.has_edge(0, 2));
    assert!(!g.has_edge(0, 3));
    assert!(!g.has_edge(1, 2));
    assert_eq!(g.degree_of(0), 1);
    assert_eq!(g.degree_of(2), 1);
}

#[test]
fn ternary_clause_triangle() {
    // p cnf 3 1 / 1 2 3 0: a complete triangle.
    let cls = clauses(&[&[1, 2, 3]]);
    for h in [TDHeuristic::MinFill, TDHeuristic::MinDeg] {
        let td = TreeDecomposition::new(3, &cls, &h).unwrap();
        assert_eq!(td.width(), 2);
        assert_eq!(roots(&td).len(), 1);
        let bags: Vec<Vec<usize>> = td.bags().iter().map(|b| b.clone()).collect();
        assert!(bags.contains(&vec![0, 1, 2]));
        assert!(td.check_running_intersection());
        assert!(td.check_no_redundant_bags());
        // Width is bounded below by the clique size minus one.
        assert!(td.width() >= 2);
    }
}

#[test]
fn four_cycle_min_fill() {
    // A 4-cycle: edges 1-2, 2-3, 3-4, 4-1, no diagonal.
    let cls = clauses(&[&[1, 2], &[2, 3], &[3, 4], &[4, 1]]);
    let td = TreeDecomposition::new(4, &cls, &TDHeuristic::MinFill).unwrap();
    // One diagonal fill-in is required, so the width is exactly 2.
    assert_eq!(td.width(), 2);
    assert_eq!(roots(&td).len(), 1);
    assert!(td.check_running_intersection());
    assert!(td.check_no_redundant_bags());
}

#[test]
fn four_cycle_min_deg() {
    let cls = clauses(&[&[1, 2], &[2, 3], &[3, 4], &[4, 1]]);
    let td = TreeDecomposition::new(4, &cls, &TDHeuristic::MinDeg).unwrap();
    assert_eq!(td.width(), 2);
    assert!(td.check_running_intersection());
    assert!(td.check_no_redundant_bags());
}

#[test]
fn order_is_permutation() {
    let cls = clauses(&[&[1, 2], &[2, 3], &[3, 4], &[4, 1], &[1, 3]]);
    let td = TreeDecomposition::new(4, &cls, &TDHeuristic::MinFill).unwrap();
    let order = sorted(td.order().clone());
    assert_eq!(order, vec![0, 1, 2, 3]);
    for b in td.bags().iter() {
        assert!(!b.is_empty());
    }
}

#[test]
fn rerun_is_deterministic() {
    let cls = clauses(&[&[1, 2, 3], &[3, 4], &[4, 5], &[5, 1], &[2, 4]]);
    for h in [TDHeuristic::MinFill, TDHeuristic::MinDeg] {
        let a = TreeDecomposition::new(5, &cls, &h).unwrap();
        let b = TreeDecomposition::new(5, &cls, &h).unwrap();
        assert_eq!(a.width(), b.width());
        assert_eq!(a.order(), b.order());
        assert_eq!(a.bags(), b.bags());
        assert_eq!(a.children(), b.children());
        assert_eq!(a.parents(), b.parents());
    }
}

fn expect_err(r: Result<TreeDecomposition, ConfigError>) -> ConfigError {
    match r {
        Err(e) => e,
        Ok(_) => panic!("expected a configuration error"),
    }
}

#[test]
fn zero_variables_is_refused() {
    let cls = clauses(&[]);
    let r = TreeDecomposition::new(0, &cls, &TDHeuristic::MinFill);
    assert_eq!(expect_err(r), ConfigError::NoVariables);
}

#[test]
fn out_of_range_literal_is_refused() {
    let cls = clauses(&[&[1, 5]]);
    let r = TreeDecomposition::new(4, &cls, &TDHeuristic::MinFill);
    assert_eq!(expect_err(r), ConfigError::LiteralOutOfRange);
    let cls = clauses(&[&[1, 0]]);
    let r = TreeDecomposition::new(4, &cls, &TDHeuristic::MinFill);
    assert_eq!(expect_err(r), ConfigError::LiteralOutOfRange);
}

#[test]
fn negative_literals_build_the_same_graph() {
    let pos = clauses(&[&[1, 2]]);
    let neg = clauses(&[&[-1, -2]]);
    let a = TreeDecomposition::new(2, &pos, &TDHeuristic::MinDeg).unwrap();
    let b = TreeDecomposition::new(2, &neg, &TDHeuristic::MinDeg).unwrap();
    assert_eq!(a.bags(), b.bags());
    assert_eq!(a.width(), b.width());
}

#[test]
fn single_variable_formula() {
    let cls = clauses(&[&[1]]);
    let td = TreeDecomposition::new(1, &cls, &TDHeuristic::MinFill).unwrap();
    assert_eq!(td.width(), 0);
    assert_eq!(td.bags().len(), 1);
    assert_eq!(td.bags()[0], vec![0]);
}

#[test]
fn isolated_vertices_have_width_zero() {
    // No clauses at all: every vertex is isolated.
    let cls = clauses(&[]);
    let td = TreeDecomposition::new(3, &cls, &TDHeuristic::MinDeg).unwrap();
    assert_eq!(td.width(), 0);
    assert_eq!(roots(&td).len(), td.bags().len());
    assert!(td.check_running_intersection());
}
