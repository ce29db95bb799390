//! Communication graphs, their components, and checks that split a history
//! by them.

use std::collections::{BTreeSet, HashSet};

use dbcop::consistency::decomposition::{biconnected_components, communication_graph, components_overlap, connected_components};
use dbcop::consistency::{merge_witnesses, remap_witness, singleton_session_witness, Witness};
use dbcop::graph::biconnected::BiconnectedComponentWalker;
use dbcop::graph::ugraph::UGraph;
use dbcop::history::atomic::types::{AtomicTransactionHistory, AtomicTransactionInfo, TransactionId};
use dbcop::history::atomic::AtomicTransactionPO;
use dbcop::history::raw::types::{Event, Transaction};
use dbcop::{check, Consistency};

type History = Vec<Vec<Transaction<&'static str, u64>>>;

fn session(txns: Vec<Transaction<&'static str, u64>>) -> Vec<Transaction<&'static str, u64>> {
    txns
}

fn tid(session_id: u64, session_height: u64) -> TransactionId {
    TransactionId { session_id, session_height }
}

fn info(reads: Vec<(&'static str, TransactionId)>, writes: Vec<&'static str>) -> AtomicTransactionInfo<&'static str> {
    AtomicTransactionInfo { reads, writes }
}

fn set(v: &[u64]) -> BTreeSet<u64> {
    v.iter().copied().collect()
}

fn sets(v: Vec<Vec<u64>>) -> BTreeSet<BTreeSet<u64>> {
    v.into_iter().map(|c| c.into_iter().collect()).collect()
}

// -- Communication graph ---------------------------------------------------

#[test]
fn test_communication_graph_two_clusters() {
    // Sessions 1 and 2 share variable "x"; session 3 only accesses "y".
    let history = AtomicTransactionHistory(vec![
        vec![info(vec![], vec!["x"])],
        vec![info(vec![("x", tid(1, 0))], vec![])],
        vec![info(vec![], vec!["y"])],
    ]);
    let po = AtomicTransactionPO::from(history);
    let comm_graph = communication_graph(&po);

    assert!(comm_graph.has_edge(1, 2), "Sessions 1 and 2 should be connected");
    assert!(comm_graph.has_edge(2, 1), "Sessions 2 and 1 should be connected (undirected)");
    assert!(!comm_graph.has_edge(3, 1), "Sessions 3 and 1 should not be connected");
    assert!(!comm_graph.has_edge(3, 2), "Sessions 3 and 2 should not be connected");
    assert!(comm_graph.has_vertex(1), "Session 1 should exist");
    assert!(comm_graph.has_vertex(2), "Session 2 should exist");
    assert!(comm_graph.has_vertex(3), "Session 3 should exist");
}

#[test]
fn test_communication_graph_single_session() {
    let history = AtomicTransactionHistory(vec![vec![info(vec![], vec!["x"])]]);
    let po = AtomicTransactionPO::from(history);
    let comm_graph = communication_graph(&po);

    assert!(comm_graph.has_vertex(1), "Session 1 should exist");
    assert!(
        comm_graph.has_vertex(1) && comm_graph.neighbours(1).is_empty(),
        "Session 1 should have no neighbors"
    );
}

#[test]
fn test_communication_graph_fully_connected() {
    let history = AtomicTransactionHistory(vec![
        vec![info(vec![], vec!["x"])],
        vec![info(vec![], vec!["x"])],
        vec![info(vec![], vec!["x"])],
    ]);
    let po = AtomicTransactionPO::from(history);
    let comm_graph = communication_graph(&po);

    for i in 1..=3 {
        for j in 1..=3 {
            if i != j {
                assert!(comm_graph.has_edge(i, j), "Sessions {i} and {j} should be connected");
            }
        }
    }
}

#[test]
fn communication_graph_skips_empty_sessions() {
    let history = AtomicTransactionHistory(vec![
        vec![info(vec![], vec!["x"])],
        vec![],
        vec![info(vec![("x", tid(1, 0))], vec![])],
    ]);
    let po = AtomicTransactionPO::from(history);
    let comm_graph = communication_graph(&po);
    assert!(!comm_graph.has_vertex(2));
    assert!(comm_graph.has_edge(1, 3));
    assert_eq!(set(&comm_graph.vertices()), set(&[1, 3]));
}

#[test]
fn communication_graph_links_initial_readers() {
    // Reading the initial value of a variable is an access to it.
    let history = AtomicTransactionHistory(vec![
        vec![info(vec![("x", tid(0, 0))], vec![])],
        vec![info(vec![], vec!["x"])],
    ]);
    let po = AtomicTransactionPO::from(history);
    let comm_graph = communication_graph(&po);
    assert!(comm_graph.has_edge(1, 2));
    assert!(!comm_graph.has_edge(1, 1));
}

// -- Connected and biconnected components ------------------------------------

#[test]
fn connected_components_in_order_of_smallest_vertex() {
    let mut graph = UGraph::default();
    graph.add_edge(5, 3);
    graph.add_edge(1, 4);
    graph.add_edge(4, 2);
    graph.add_vertex(9);
    let components = connected_components(&graph);
    assert_eq!(components, vec![vec![1, 2, 4], vec![3, 5], vec![9]]);
}

#[test]
fn connected_components_of_empty_graph() {
    let graph = UGraph::new();
    assert!(connected_components(&graph).is_empty());
}

#[test]
fn test_biconnected_components_path_graph() {
    let mut graph = UGraph::default();
    graph.add_edge(1, 2);
    graph.add_edge(2, 3);

    let components = biconnected_components(&graph);
    assert_eq!(components, vec![vec![1, 2], vec![2, 3]]);
}

#[test]
fn biconnected_components_sorted_and_deduplicated() {
    let mut graph = UGraph::default();
    graph.add_edge(7, 8);
    graph.add_edge(1, 2);
    graph.add_edge(2, 3);
    graph.add_edge(3, 1);
    graph.add_vertex(0);
    let components = biconnected_components(&graph);
    assert_eq!(components, vec![vec![0], vec![1, 2, 3], vec![7, 8]]);
}

#[test]
fn test_pair() {
    let mut graph = UGraph::default();

    graph.add_edge(0, 1);

    let (articulation_points, components, non_group) = BiconnectedComponentWalker::get_vertex_components(&graph);

    assert_eq!(set(&articulation_points), set(&[]));
    assert_eq!(sets(components), BTreeSet::new());
    assert_eq!(sets(non_group), [set(&[0, 1])].into_iter().collect());
}

#[test]
fn test_biconnected_component() {
    let mut graph = UGraph::default();

    graph.add_edge(1, 0);
    graph.add_edge(0, 2);
    graph.add_edge(2, 1);
    graph.add_edge(0, 3);
    graph.add_edge(3, 5);
    graph.add_edge(3, 4);
    graph.add_vertex(6);

    let (articulation_points, components, non_group) = BiconnectedComponentWalker::get_vertex_components(&graph);

    assert_eq!(set(&articulation_points), set(&[0, 3]));

    assert_eq!(
        sets(components),
        [set(&[0, 1, 2]), set(&[3, 4]), set(&[0, 3]), set(&[5, 3]), set(&[0, 2, 1])].into_iter().collect()
    );

    assert_eq!(sets(non_group), [set(&[6])].into_iter().collect());
}

#[test]
fn test_wikipedia() {
    // the example from wikipedia
    let mut graph = UGraph::default();

    graph.add_edges(&0, &[1, 9]);
    graph.add_edges(&1, &[2, 6, 8]);
    graph.add_edges(&2, &[3, 4]);
    graph.add_edges(&3, &[4]);
    graph.add_edges(&4, &[5]);
    graph.add_edges(&5, &[6]);
    graph.add_edges(&6, &[7]);
    graph.add_edges(&9, &[10]);
    graph.add_edges(&10, &[11, 12]);
    graph.add_edges(&11, &[13]);
    graph.add_edges(&12, &[13]);

    let (articulation_points, components, non_group) = BiconnectedComponentWalker::get_vertex_components(&graph);

    assert_eq!(set(&articulation_points), set(&[0, 1, 6, 9, 10]));

    assert_eq!(
        sets(components),
        [
            set(&[0, 1]),
            set(&[1, 8]),
            set(&[6, 7]),
            set(&[9, 10]),
            set(&[0, 9]),
            set(&[10, 11, 12, 13]),
            set(&[1, 2, 3, 4, 5, 6]),
        ]
        .into_iter()
        .collect()
    );

    assert_eq!(sets(non_group), BTreeSet::new());
}

#[test]
fn components_overlap_on_shared_vertex() {
    assert!(components_overlap(&[vec![1, 2], vec![2, 3]]));
    assert!(!components_overlap(&[vec![1, 2], vec![3]]));
    assert!(!components_overlap(&[]));
}

// -- Witnesses of sub-histories ----------------------------------------------

#[test]
fn singleton_session_witness_commit_order_for_prefix() {
    let session = vec![
        Transaction::committed(vec![Event::write("x", 1)]),
        Transaction::committed(vec![Event::read("x", 1), Event::write("y", 1)]),
    ];
    let witness = singleton_session_witness(&session, Consistency::Prefix);
    let Witness::CommitOrder(order) = witness else {
        panic!("expected CommitOrder");
    };
    assert_eq!(order.len(), 2);
    assert_eq!(order[0].session_id, 1);
    assert_eq!(order[0].session_height, 0);
    assert_eq!(order[1].session_id, 1);
    assert_eq!(order[1].session_height, 1);
}

#[test]
fn singleton_session_witness_split_order_for_snapshot_isolation() {
    let session = vec![
        Transaction::committed(vec![Event::write("x", 1)]),
        Transaction::committed(vec![Event::read("x", 1), Event::write("y", 1)]),
    ];
    let witness = singleton_session_witness(&session, Consistency::SnapshotIsolation);
    let Witness::SplitCommitOrder(order) = witness else {
        panic!("expected SplitCommitOrder");
    };
    assert_eq!(order.len(), 4);
    assert!(!order[0].1);
    assert!(order[1].1);
    assert!(!order[2].1);
    assert!(order[3].1);
}

#[test]
fn remap_witness_commit_order() {
    let witness = Witness::CommitOrder(vec![tid(1, 0), tid(2, 0)]);
    // Remap: sub-session 1 -> original 3, sub-session 2 -> original 5
    let remapped = remap_witness(witness, &[3, 5]);
    let Witness::CommitOrder(order) = remapped else {
        panic!("expected CommitOrder");
    };
    assert_eq!(order[0].session_id, 3);
    assert_eq!(order[1].session_id, 5);
}

#[test]
fn remap_witness_split_commit_order() {
    let witness = Witness::SplitCommitOrder(vec![(tid(1, 0), false), (tid(1, 0), true)]);
    let remapped = remap_witness(witness, &[7]);
    let Witness::SplitCommitOrder(order) = remapped else {
        panic!("expected SplitCommitOrder");
    };
    assert_eq!(order[0].0.session_id, 7);
    assert!(!order[0].1);
    assert_eq!(order[1].0.session_id, 7);
    assert!(order[1].1);
}

#[test]
fn remap_witness_preserves_root() {
    let witness = Witness::CommitOrder(vec![tid(0, 0), tid(1, 0)]);
    let remapped = remap_witness(witness, &[42]);
    let Witness::CommitOrder(order) = remapped else {
        panic!("expected CommitOrder");
    };
    // Root (session_id=0) should be preserved
    assert_eq!(order[0].session_id, 0);
    assert_eq!(order[1].session_id, 42);
}

#[test]
fn merge_witnesses_commit_order() {
    let a = Witness::CommitOrder(vec![tid(1, 0)]);
    let b = Witness::CommitOrder(vec![tid(2, 0)]);
    let merged = merge_witnesses(a, b);
    let Witness::CommitOrder(order) = merged else {
        panic!("expected CommitOrder");
    };
    assert_eq!(order.len(), 2);
}

#[test]
fn merge_witnesses_split_commit_order() {
    let a = Witness::SplitCommitOrder(vec![(tid(1, 0), false)]);
    let b = Witness::SplitCommitOrder(vec![(tid(2, 0), true)]);
    let merged = merge_witnesses(a, b);
    let Witness::SplitCommitOrder(order) = merged else {
        panic!("expected SplitCommitOrder");
    };
    assert_eq!(order.len(), 2);
    assert_eq!(order[0], (tid(1, 0), false));
    assert_eq!(order[1], (tid(2, 0), true));
}

// -- Checks that split a history -------------------------------------------

/// Sessions {1,2} share var "x", sessions {3,4} share var "y".
fn two_cluster_history() -> History {
    vec![
        vec![Transaction::committed(vec![Event::write("x", 1)])],
        vec![Transaction::committed(vec![Event::read("x", 1)])],
        vec![Transaction::committed(vec![Event::write("y", 1)])],
        vec![Transaction::committed(vec![Event::read("y", 1)])],
    ]
}

#[test]
fn multi_component_prefix_pass() {
    let history = two_cluster_history();
    let result = check(&history, Consistency::Prefix);
    assert!(result.is_ok(), "expected pass, got: {result:?}");
    let Witness::CommitOrder(order) = result.unwrap() else {
        panic!("expected CommitOrder witness for Prefix");
    };
    assert_eq!(order.len(), 4, "expected 4 transactions in merged CommitOrder");
    let ids: BTreeSet<u64> = order.iter().map(|tid| tid.session_id).collect();
    assert!(ids.contains(&1));
    assert!(ids.contains(&2));
    assert!(ids.contains(&3));
    assert!(ids.contains(&4));
}

#[test]
fn multi_component_snapshot_isolation_pass() {
    let history = two_cluster_history();
    let result = check(&history, Consistency::SnapshotIsolation);
    assert!(result.is_ok(), "expected pass, got: {result:?}");
    let Witness::SplitCommitOrder(order) = result.unwrap() else {
        panic!("expected SplitCommitOrder witness for SnapshotIsolation");
    };
    assert_eq!(order.len(), 8, "expected 8 entries in merged SplitCommitOrder");
    let ids: BTreeSet<u64> = order.iter().map(|(tid, _)| tid.session_id).collect();
    assert!(ids.contains(&1));
    assert!(ids.contains(&2));
    assert!(ids.contains(&3));
    assert!(ids.contains(&4));
}

#[test]
fn multi_component_serializable_pass() {
    let history = two_cluster_history();
    let result = check(&history, Consistency::Serializable);
    assert!(result.is_ok(), "expected pass, got: {result:?}");
    let Witness::CommitOrder(order) = result.unwrap() else {
        panic!("expected CommitOrder witness for Serializable");
    };
    assert_eq!(order.len(), 4, "expected 4 transactions in merged CommitOrder");
    let ids: BTreeSet<u64> = order.iter().map(|tid| tid.session_id).collect();
    assert!(ids.contains(&1));
    assert!(ids.contains(&2));
    assert!(ids.contains(&3));
    assert!(ids.contains(&4));
}

fn write_skew_cluster_history() -> History {
    vec![
        vec![Transaction::committed(vec![Event::write("x", 1)])],
        vec![Transaction::committed(vec![Event::read("x", 1)])],
        vec![Transaction::committed(vec![Event::write("a", 1), Event::write("b", 1)])],
        vec![Transaction::committed(vec![Event::read("a", 1), Event::write("b", 2)])],
        vec![Transaction::committed(vec![Event::read("b", 1), Event::write("a", 2)])],
    ]
}

#[test]
fn multi_component_one_cluster_fails_serializable() {
    let history = write_skew_cluster_history();
    let result = check(&history, Consistency::Serializable);
    assert!(result.is_err(), "expected serializable violation, got: {result:?}");
}

#[test]
fn multi_component_one_cluster_fails_snapshot_isolation() {
    let history: History = vec![
        vec![Transaction::committed(vec![Event::write("x", 1)])],
        vec![Transaction::committed(vec![Event::read("x", 1)])],
        vec![Transaction::committed(vec![Event::write("a", 1)])],
        vec![Transaction::committed(vec![Event::read("a", 1), Event::write("a", 2)])],
        vec![Transaction::committed(vec![Event::read("a", 1), Event::write("a", 3)])],
    ];
    let result = check(&history, Consistency::SnapshotIsolation);
    assert!(result.is_err(), "expected SI violation, got: {result:?}");
}

#[test]
fn trivially_consistent_empty_sessions() {
    let empty: History = vec![];
    let result = check(&empty, Consistency::Serializable);
    assert!(result.is_ok());
    let Witness::CommitOrder(order) = result.unwrap() else {
        panic!("expected CommitOrder");
    };
    assert!(order.is_empty());
}

#[test]
fn trivially_consistent_all_empty_sessions() {
    let history: History = vec![vec![], vec![]];
    let result = check(&history, Consistency::Prefix);
    assert!(result.is_ok());
    let Witness::CommitOrder(order) = result.unwrap() else {
        panic!("expected CommitOrder");
    };
    assert!(order.is_empty());
}

#[test]
fn decomposition_two_independent_clusters_serializable_pass() {
    let history: History = vec![
        session(vec![Transaction::committed(vec![Event::write("x", 1)])]),
        session(vec![Transaction::committed(vec![Event::read("x", 1)])]),
        session(vec![Transaction::committed(vec![Event::write("y", 1)])]),
        session(vec![Transaction::committed(vec![Event::read("y", 1)])]),
    ];
    let result = check(&history, Consistency::Serializable);
    assert!(result.is_ok(), "expected pass, got: {result:?}");
    let Witness::CommitOrder(order) = result.unwrap() else {
        panic!("expected CommitOrder witness");
    };
    assert_eq!(order.len(), 4, "expected 4 transactions in merged CommitOrder");
    let ids: HashSet<u64> = order.iter().map(|tid| tid.session_id).collect();
    assert!(ids.contains(&1));
    assert!(ids.contains(&2));
    assert!(ids.contains(&3));
    assert!(ids.contains(&4));
}

#[test]
fn decomposition_single_cluster_fallback_serializable_pass() {
    let history: History = vec![
        session(vec![Transaction::committed(vec![Event::write("x", 1)])]),
        session(vec![Transaction::committed(vec![Event::read("x", 1)])]),
        session(vec![Transaction::committed(vec![Event::read("x", 1)])]),
    ];
    let result = check(&history, Consistency::Serializable);
    assert!(result.is_ok(), "expected pass, got: {result:?}");
}

#[test]
fn decomposition_one_failing_cluster_serializable_fail() {
    let history = write_skew_cluster_history();
    let result = check(&history, Consistency::Serializable);
    assert!(result.is_err(), "expected serializable violation, got: {result:?}");
}
