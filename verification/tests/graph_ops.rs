//! The dependency graph operations: topological order, reachability
//! sets, sources, sinks, and exact cycle detection on single edges.

use schemer::graph::DependencyGraph;
use schemer::testing::TestMigration;
use schemer::DependencyError;

const A: u128 = 100;
const B: u128 = 200;
const C: u128 = 300;
const D: u128 = 400;
const E: u128 = 500;

/// A and B free, C depends on both, D and E depend on C; dependencies are
/// resolved to indices 0..=4 in that order.
fn branching() -> DependencyGraph<TestMigration> {
    let mut graph = DependencyGraph::new();
    graph.add_node_with_deps(TestMigration::new(A, vec![]), vec![]);
    graph.add_node_with_deps(TestMigration::new(B, vec![]), vec![]);
    graph.add_node_with_deps(TestMigration::new(C, vec![A, B]), vec![0, 1]);
    graph.add_node_with_deps(TestMigration::new(D, vec![C]), vec![2]);
    graph.add_node_with_deps(TestMigration::new(E, vec![C]), vec![2]);
    graph
}

#[test]
fn toposort_is_deterministic_and_respects_edges() {
    let order1 = branching().toposort();
    let order2 = branching().toposort();
    assert_eq!(order1, order2);
    assert_eq!(order1.len(), 5);
    let pos = |v: usize| order1.iter().position(|x| *x == v).unwrap();
    assert!(pos(0) < pos(2));
    assert!(pos(1) < pos(2));
    assert!(pos(2) < pos(3));
    assert!(pos(2) < pos(4));
}

#[test]
fn ancestors_and_descendants_are_inclusive_reachability_sets() {
    let graph = branching();
    let mut anc = graph.ancestors(3);
    anc.sort();
    assert_eq!(anc, vec![0, 1, 2, 3]);
    let mut desc = graph.descendants(2);
    desc.sort();
    assert_eq!(desc, vec![2, 3, 4]);
    assert_eq!(graph.ancestors(0), vec![0]);
}

#[test]
fn sources_and_sinks() {
    let graph = branching();
    let mut sources = graph.sources();
    sources.sort();
    assert_eq!(sources, vec![0, 1]);
    let mut sinks = graph.sinks();
    sinks.sort();
    assert_eq!(sinks, vec![3, 4]);
}

#[test]
fn add_edge_rejects_exactly_the_cycles() {
    let mut graph = branching();
    // an edge from E back to A would close the cycle A -> C -> E -> A
    let r = graph.add_edge(4, 0);
    assert!(matches!(
        r,
        Err(DependencyError::Cycle { from, to }) if from == E && to == A
    ));
    // the rejected edge left the graph unchanged: D still has one parent
    // and a fresh forward edge is accepted
    assert!(graph.add_edge(1, 3).is_ok());
    let mut anc = graph.ancestors(3);
    anc.sort();
    assert_eq!(anc, vec![0, 1, 2, 3]);
}

#[test]
fn find_index_and_ids() {
    let graph = branching();
    assert_eq!(graph.len(), 5);
    assert_eq!(graph.find_index(C), Some(2));
    assert_eq!(graph.find_index(999), None);
    assert_eq!(graph.id_at(4), E);
}
