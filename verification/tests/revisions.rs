//! Reads repeated from one writer, reads of a transaction's own writes,
//! implicit vertices of edges, the empty search problem, and the levels'
//! nesting on concrete histories.

use dbcop::consistency::causal::check_causal_read;
use dbcop::consistency::committed_read::check_committed_read;
use dbcop::consistency::constrained_linearization::{get_linearization, DfsSearchOptions, LinKind, LinProblem};
use dbcop::graph::digraph::DiGraph;
use dbcop::history::atomic::types::TransactionId;
use dbcop::history::raw::is_valid_history;
use dbcop::history::raw::types::{Event, Session, Transaction};
use dbcop::sat::{check_prefix, check_serializable, check_snapshot_isolation};
use dbcop::{check, Consistency};

fn c(events: Vec<Event<&'static str, u64>>) -> Transaction<&'static str, u64> {
    Transaction::committed(events)
}

#[test]
fn committed_read_accepts_two_reads_from_one_writer() {
    let h: Vec<Session<&'static str, u64>> = vec![
        vec![c(vec![Event::write("x", 1)])],
        vec![c(vec![Event::read("x", 1), Event::read("x", 1)])],
    ];
    assert!(check_committed_read(&h).is_ok());
    assert!(check(&h, Consistency::CommittedRead).is_ok());
}

#[test]
fn committed_read_has_no_vertex_for_an_empty_session() {
    let h: Vec<Session<&'static str, u64>> = vec![vec![], vec![c(vec![Event::write("x", 1)])]];
    let g = check_committed_read(&h).unwrap();
    assert!(!g.has_vertex(&TransactionId { session_id: 1, session_height: 0 }));
    assert!(g.has_vertex(&TransactionId { session_id: 2, session_height: 0 }));
}

#[test]
fn valid_history_allows_reading_an_earlier_own_write() {
    let h: Vec<Session<&'static str, u64>> = vec![vec![c(vec![
        Event::write("x", 1),
        Event::read("x", 1),
        Event::write("x", 2),
    ])]];
    assert!(is_valid_history(&h).is_ok());
}

#[test]
fn add_edges_makes_targets_vertices() {
    let a = TransactionId { session_id: 1, session_height: 0 };
    let b = TransactionId { session_id: 1, session_height: 1 };
    let d = TransactionId { session_id: 2, session_height: 0 };
    let mut g = DiGraph::default();
    g.add_edges(a, &[b, d]);
    assert!(g.has_vertex(&a) && g.has_vertex(&b) && g.has_vertex(&d));
    assert!(g.has_edge(&a, &b) && g.has_edge(&a, &d));
    assert!(g.topological_sort().is_some());
}

#[test]
fn search_on_empty_problem_gives_empty_order() {
    let h: Vec<Session<&'static str, u64>> = vec![];
    let po = check_causal_read(&h).unwrap();
    let p = LinProblem::build(&po, LinKind::Serializable).unwrap();
    assert_eq!(get_linearization(&p, DfsSearchOptions::default()), Some(vec![]));
}

#[test]
fn levels_nest_on_write_skew() {
    let h: Vec<Session<&'static str, u64>> = vec![
        vec![c(vec![Event::write("x", 1), Event::write("y", 1)])],
        vec![c(vec![Event::read("x", 1), Event::write("y", 2)])],
        vec![c(vec![Event::read("y", 1), Event::write("x", 2)])],
    ];
    assert!(check(&h, Consistency::CommittedRead).is_ok());
    assert!(check(&h, Consistency::Causal).is_ok());
    assert!(check(&h, Consistency::Prefix).is_ok());
    assert!(check(&h, Consistency::SnapshotIsolation).is_ok());
    assert!(check(&h, Consistency::Serializable).is_err());
    assert_eq!(check(&h, Consistency::Prefix).is_ok(), check_prefix(&h).is_ok());
    assert_eq!(check(&h, Consistency::SnapshotIsolation).is_ok(), check_snapshot_isolation(&h).is_ok());
    assert_eq!(check(&h, Consistency::Serializable).is_ok(), check_serializable(&h).is_ok());
}

#[test]
fn levels_nest_on_concurrent_writers() {
    let h: Vec<Session<&'static str, u64>> = vec![
        vec![c(vec![Event::write("x", 1)])],
        vec![c(vec![Event::read("x", 1), Event::write("x", 2)])],
        vec![c(vec![Event::read("x", 1), Event::write("x", 3)])],
    ];
    assert!(check(&h, Consistency::Prefix).is_ok());
    assert!(check(&h, Consistency::SnapshotIsolation).is_err());
    assert!(check(&h, Consistency::Serializable).is_err());
    assert_eq!(check(&h, Consistency::Prefix).is_ok(), check_prefix(&h).is_ok());
    assert_eq!(check(&h, Consistency::SnapshotIsolation).is_ok(), check_snapshot_isolation(&h).is_ok());
}
