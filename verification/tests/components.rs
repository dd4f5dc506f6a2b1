use couaincre::buckets::BucketQueue;
use couaincre::counter::Counter;
use couaincre::graph::Graph;
use couaincre::heuristic::TDHeuristic;
use couaincre::restriction::{usize_to_string, Restriction, RestrictionOp};
use couaincre::sampler::Sampler;

#[test]
fn min_deg_score_is_the_degree() {
    let mut g = Graph::new(4);
    g.add_edge(0, 1);
    g.add_edge(0, 2);
    g.add_edge(0, 3);
    assert_eq!(TDHeuristic::MinDeg.evaluate_node(&g, 0), 3);
    assert_eq!(TDHeuristic::MinDeg.evaluate_node(&g, 1), 1);
}

#[test]
fn min_fill_counts_missing_neighbor_pairs() {
    // A star on four leaves: all six leaf pairs are missing.
    let mut g = Graph::new(5);
    for leaf in 1..5 {
        g.add_edge(0, leaf);
    }
    assert_eq!(TDHeuristic::MinFill.evaluate_node(&g, 0), 6);
    // Closing one pair removes exactly one missing edge.
    g.add_edge(1, 2);
    assert_eq!(TDHeuristic::MinFill.evaluate_node(&g, 0), 5);
    // A leaf has a single neighbor, so nothing to fill.
    assert_eq!(TDHeuristic::MinFill.evaluate_node(&g, 1), 0);
    // An isolated vertex scores zero.
    let g2 = Graph::new(2);
    assert_eq!(TDHeuristic::MinFill.evaluate_node(&g2, 0), 0);
}

#[test]
fn eliminate_triangulates_and_isolates() {
    // A path 1 - 0 - 2; eliminating 0 must connect 1 and 2.
    let mut g = Graph::new(3);
    g.add_edge(0, 1);
    g.add_edge(0, 2);
    g.eliminate(0);
    assert!(g.has_edge(1, 2));
    assert!(g.has_edge(2, 1));
    assert!(!g.has_edge(0, 1));
    assert!(!g.has_edge(0, 2));
    assert_eq!(g.degree_of(0), 0);
}

#[test]
fn neighbors_are_sorted() {
    let mut g = Graph::new(5);
    g.add_edge(2, 4);
    g.add_edge(2, 0);
    g.add_edge(2, 3);
    assert_eq!(g.neighbors(2), vec![0, 3, 4]);
    assert_eq!(g.neighbors(1), Vec::<usize>::new());
}

#[test]
fn flag_nodes_marks_the_affected_neighborhood() {
    // A path 0 - 1 - 2 - 3.
    let mut g = Graph::new(4);
    g.add_edge(0, 1);
    g.add_edge(1, 2);
    g.add_edge(2, 3);
    // MinDeg flags only direct neighbors of the eliminated vertex.
    let mut flags = vec![false; 4];
    TDHeuristic::MinDeg.flag_nodes_to_update(&g, 1, &mut flags);
    assert_eq!(flags, vec![true, false, true, false]);
    // MinFill also flags the neighbors' neighbors.
    let mut flags = vec![false; 4];
    TDHeuristic::MinFill.flag_nodes_to_update(&g, 1, &mut flags);
    assert_eq!(flags, vec![true, false, true, true]);
    // Flags already set stay set.
    let mut flags = vec![false, false, false, true];
    TDHeuristic::MinDeg.flag_nodes_to_update(&g, 0, &mut flags);
    assert_eq!(flags, vec![false, true, false, true]);
}

#[test]
fn unaffected_vertex_keeps_its_score() {
    // A path 0 - 1 - 2 - 3 - 4: eliminating 0 only touches 1's
    // neighborhood, so vertices the heuristic does not flag keep their score.
    let mut g = Graph::new(5);
    g.add_edge(0, 1);
    g.add_edge(1, 2);
    g.add_edge(2, 3);
    g.add_edge(3, 4);
    let deg3_before = TDHeuristic::MinDeg.evaluate_node(&g, 3);
    let fill3_before = TDHeuristic::MinFill.evaluate_node(&g, 3);
    g.eliminate(0);
    assert_eq!(TDHeuristic::MinDeg.evaluate_node(&g, 3), deg3_before);
    assert_eq!(TDHeuristic::MinFill.evaluate_node(&g, 3), fill3_before);
}

#[test]
fn heuristic_names() {
    assert_eq!(TDHeuristic::MinFill.name(), "min-fill");
    assert_eq!(TDHeuristic::MinDeg.name(), "min-deg");
    assert_eq!(Counter::D4.name(), "d4");
}

#[test]
fn bucket_queue_pops_the_lowest_bucket() {
    let mut q = BucketQueue::new();
    q.insert(5, 10);
    q.insert(2, 11);
    q.insert(7, 12);
    let (score, v) = q.pop_min();
    assert_eq!((score, v), (2, 11));
    let (score, v) = q.pop_min();
    assert_eq!((score, v), (5, 10));
    // Requeueing at a higher score parks the vertex further out.
    q.insert(9, 10);
    let (score, v) = q.pop_min();
    assert_eq!((score, v), (7, 12));
    let (score, v) = q.pop_min();
    assert_eq!((score, v), (9, 10));
}

#[test]
fn bucket_queue_breaks_ties_last_in_first_out() {
    let mut q = BucketQueue::new();
    q.insert(3, 1);
    q.insert(3, 2);
    q.insert(3, 3);
    assert_eq!(q.pop_min(), (3, 3));
    assert_eq!(q.pop_min(), (3, 2));
    assert_eq!(q.pop_min(), (3, 1));
}

#[test]
fn decimal_rendering() {
    assert_eq!(usize_to_string(0), "0");
    assert_eq!(usize_to_string(7), "7");
    assert_eq!(usize_to_string(10), "10");
    assert_eq!(usize_to_string(42), "42");
    assert_eq!(usize_to_string(90210), "90210");
}

#[test]
fn restriction_flip_negates_the_operator() {
    let r = Restriction::new(Some(3), Some(5), RestrictionOp::Equal);
    let f = r.flip();
    assert_eq!(f.x, Some(3));
    assert_eq!(f.y, Some(5));
    assert!(matches!(f.op, RestrictionOp::NotEqual));
    let f2 = f.flip();
    assert!(matches!(f2.op, RestrictionOp::Equal));
    let t = Restriction::new(Some(1), None, RestrictionOp::AssignTrue);
    assert!(matches!(t.flip().op, RestrictionOp::AssignFalse));
    assert!(matches!(t.flip().flip().op, RestrictionOp::AssignTrue));
}

#[test]
fn restriction_dimacs_lines() {
    let t = Restriction::new(Some(2), None, RestrictionOp::AssignTrue);
    assert_eq!(t.to_dimacs_lines(), vec!["3 0".to_string()]);
    let f = Restriction::new(Some(2), None, RestrictionOp::AssignFalse);
    assert_eq!(f.to_dimacs_lines(), vec!["-3 0".to_string()]);
    let e = Restriction::new(Some(0), Some(9), RestrictionOp::Equal);
    assert_eq!(e.to_dimacs_lines(), vec!["-1 10 0".to_string(), "1 -10 0".to_string()]);
    let ne = Restriction::new(Some(0), Some(9), RestrictionOp::NotEqual);
    assert_eq!(ne.to_dimacs_lines(), vec!["1 10 0".to_string(), "-1 -10 0".to_string()]);
}

#[test]
fn sampler_keeps_its_input_path() {
    let s = Sampler::new("problem.cnf".to_string());
    assert_eq!(s.input(), "problem.cnf");
}
