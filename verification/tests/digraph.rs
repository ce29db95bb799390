//! Directed graphs: edges, cycles, closures, unions and topological orders.

use std::collections::BTreeSet;

use dbcop::graph::digraph::DiGraph;
use dbcop::history::atomic::types::TransactionId;

/// The vertex numbered `n`.
fn v(n: u64) -> TransactionId {
    TransactionId { session_id: 1, session_height: n }
}

fn succ(g: &DiGraph, n: u64) -> BTreeSet<u64> {
    g.successors(&v(n)).into_iter().map(|t| t.session_height).collect()
}

fn nums(ns: &[u64]) -> BTreeSet<u64> {
    ns.iter().copied().collect()
}

#[test]
fn digraph_test_simple_graph() {
    let mut graph = DiGraph::default();
    graph.add_edge(v(1), v(2));
    graph.add_edge(v(2), v(3));
    graph.add_edge(v(3), v(4));
    graph.add_edge(v(4), v(5));

    assert!(graph.has_edge(&v(1), &v(2)));
    assert!(graph.has_edge(&v(2), &v(3)));
    assert!(graph.has_edge(&v(3), &v(4)));
    assert!(graph.has_edge(&v(4), &v(5)));
    assert!(!graph.has_edge(&v(1), &v(3)));
    assert!(!graph.has_edge(&v(2), &v(4)));
    assert!(!graph.has_edge(&v(3), &v(5)));

    assert!(!graph.has_cycle());

    let closure = graph.closure();

    assert_eq!(succ(&closure, 1), nums(&[2, 3, 4, 5]));
    assert_eq!(succ(&closure, 2), nums(&[3, 4, 5]));
    assert_eq!(succ(&closure, 3), nums(&[4, 5]));
    assert_eq!(succ(&closure, 4), nums(&[5]));
    assert_eq!(succ(&closure, 5), nums(&[]));
}

#[test]
fn digraph_test_cycle() {
    let mut graph = DiGraph::default();
    graph.add_edge(v(1), v(2));
    graph.add_edge(v(2), v(3));
    graph.add_edge(v(3), v(4));
    graph.add_edge(v(4), v(5));
    graph.add_edge(v(5), v(1));

    assert!(graph.has_cycle());
}

#[test]
fn digraph_test_union_cycle() {
    let mut graph1 = DiGraph::default();
    graph1.add_edge(v(1), v(2));
    graph1.add_edge(v(2), v(3));
    graph1.add_edge(v(3), v(4));
    graph1.add_edge(v(4), v(5));
    assert!(!graph1.has_cycle());

    let mut graph2 = DiGraph::default();
    graph2.add_edge(v(5), v(6));
    graph2.add_edge(v(6), v(7));
    graph2.add_edge(v(7), v(8));
    graph2.add_edge(v(8), v(1));

    assert!(!graph2.has_cycle());

    assert!(graph1.union(&graph2));

    assert!(graph1.has_cycle());
}

#[test]
fn test_topological_sort_acyclic() {
    let mut graph = DiGraph::default();
    graph.add_edge(v(1), v(2));
    graph.add_edge(v(2), v(3));
    graph.add_edge(v(1), v(3));

    let topo = graph.topological_sort();
    assert!(topo.is_some());

    let order = topo.unwrap();
    assert_eq!(order.len(), 3);

    let pos_1 = order.iter().position(|&x| x == v(1)).unwrap();
    let pos_2 = order.iter().position(|&x| x == v(2)).unwrap();
    let pos_3 = order.iter().position(|&x| x == v(3)).unwrap();

    assert!(pos_1 < pos_2);
    assert!(pos_2 < pos_3);
    assert!(pos_1 < pos_3);
}

#[test]
fn test_topological_sort_cyclic() {
    let mut graph = DiGraph::default();
    graph.add_edge(v(1), v(2));
    graph.add_edge(v(2), v(3));
    graph.add_edge(v(3), v(1));

    let topo = graph.topological_sort();
    assert!(topo.is_none());
}

#[test]
fn test_topological_sort_empty() {
    let graph = DiGraph::default();
    let topo = graph.topological_sort();
    assert!(topo.is_some());
    assert_eq!(topo.unwrap().len(), 0);
}

#[test]
fn test_incremental_closure_from_empty() {
    let edges = [(0, 1), (1, 2), (0, 3), (3, 4)];

    let mut full = DiGraph::default();
    for (a, b) in edges {
        full.add_edge(v(a), v(b));
    }
    let expected = full.closure();

    let mut incremental = DiGraph::default();
    incremental.incremental_closure(edges.iter().map(|&(a, b)| (v(a), v(b))).collect());

    assert!(incremental == expected);
}

#[test]
fn test_incremental_closure_extends_closed_graph() {
    let mut graph = DiGraph::default();
    graph.add_edge(v(0), v(1));
    graph.add_edge(v(1), v(2));
    graph = graph.closure();

    let changed = graph.incremental_closure(vec![(v(2), v(3))]);
    assert!(changed);

    let mut expected = DiGraph::default();
    expected.add_edge(v(0), v(1));
    expected.add_edge(v(1), v(2));
    expected.add_edge(v(2), v(3));
    let expected = expected.closure();

    assert!(graph == expected);
}

#[test]
fn test_incremental_closure_no_change() {
    let mut graph = DiGraph::default();
    graph.add_edge(v(0), v(1));
    graph.add_edge(v(1), v(2));
    graph = graph.closure();

    let changed = graph.incremental_closure(vec![(v(0), v(2))]);
    assert!(!changed);
}

#[test]
fn find_cycle_edge_lies_on_a_cycle() {
    let mut graph = DiGraph::default();
    graph.add_edge(v(1), v(2));
    graph.add_edge(v(2), v(3));
    graph.add_edge(v(3), v(2));
    let (a, b) = graph.find_cycle_edge().expect("the graph has a cycle");
    assert!(graph.has_edge(&a, &b));
    assert!([v(2), v(3)].contains(&a) && [v(2), v(3)].contains(&b));

    let mut acyclic = DiGraph::default();
    acyclic.add_edge(v(1), v(2));
    assert!(acyclic.find_cycle_edge().is_none());
    assert!(acyclic.is_acyclic());
}
