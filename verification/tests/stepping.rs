//! The step-by-step Causal check and the plain values of a check's trace.

use dbcop::consistency::Witness;
use dbcop::history::atomic::types::TransactionId;
use dbcop::history::raw::parser::parse_history;
use dbcop::history::raw::types::{Event, Transaction};
use dbcop::stepping::{causal_step, causal_step_init, map_sessions_to_u64, parse_level, witness_edges};
use dbcop::{check, Consistency};

fn tid(session_id: u64, session_height: u64) -> TransactionId {
    TransactionId { session_id, session_height }
}

#[test]
fn parse_level_supports_repeatable_read() {
    assert!(matches!(parse_level("repeatable-read"), Some(Consistency::RepeatableRead)));
}

#[test]
fn parse_level_names_every_level() {
    assert_eq!(parse_level("committed-read"), Some(Consistency::CommittedRead));
    assert_eq!(parse_level("atomic-read"), Some(Consistency::AtomicRead));
    assert_eq!(parse_level("causal"), Some(Consistency::Causal));
    assert_eq!(parse_level("prefix"), Some(Consistency::Prefix));
    assert_eq!(parse_level("snapshot-isolation"), Some(Consistency::SnapshotIsolation));
    assert_eq!(parse_level("serializable"), Some(Consistency::Serializable));
    assert_eq!(parse_level("Serializable"), None);
    assert_eq!(parse_level(""), None);
}

#[test]
fn test_version_zero_causal_text() {
    // The text form of a history whose reads observe initial values passes Causal.
    let sessions = map_sessions_to_u64(parse_history("[x==0 x:=1]\n---\n[x==0 x:=2]\n").expect("parses"));
    let result = check(&sessions, Consistency::Causal);
    assert!(result.is_ok(), "version-zero text causal should pass: {result:?}");
}

#[test]
fn map_sessions_numbers_variables_by_first_appearance() {
    let sessions = parse_history("[beta:=1]\n[alpha==? alpha:=2]\n---\n[beta==1 alpha==2]\n").expect("parses");
    let mapped = map_sessions_to_u64(sessions);
    let expected = vec![
        vec![vec![Event::write(0, 1)], vec![Event::read_empty(1), Event::write(1, 2)]],
        vec![vec![Event::read(0, 1), Event::read(1, 2)]],
    ];
    assert_eq!(mapped.len(), expected.len());
    for (session, exp) in mapped.iter().zip(expected.iter()) {
        assert_eq!(session.len(), exp.len());
        for (txn, events) in session.iter().zip(exp.iter()) {
            assert!(txn.committed);
            assert_eq!(&txn.events, events);
        }
    }
}

#[test]
fn causal_steps_reach_the_causal_visibility() {
    // s3 reads a from s1 while s4, visible to s3, overwrote it: saturation
    // adds write-write edges until none is new.
    let h = vec![
        vec![Transaction::committed(vec![Event::write("x", 1), Event::write("a", 1)])],
        vec![Transaction::committed(vec![Event::read("x", 1), Event::write("y", 1)])],
        vec![Transaction::committed(vec![Event::read("y", 1), Event::read("a", 1)])],
        vec![Transaction::committed(vec![Event::read("y", 1), Event::write("a", 2)])],
    ];
    let mut po = causal_step_init(&h).expect("atomic history");
    let mut steps = 0;
    loop {
        let new_edges = causal_step(&mut po);
        if new_edges.is_empty() {
            break;
        }
        for (a, b) in &new_edges {
            assert!(po.visibility_relation.has_edge(a, b));
        }
        steps += 1;
        assert!(steps < 10);
    }
    assert_eq!(po.has_valid_visibility(), check(&h, Consistency::Causal).is_ok());
}

#[test]
fn causal_step_init_rejects_non_atomic_history() {
    let h = vec![vec![Transaction::committed(vec![Event::read("x", 7)])]];
    assert!(causal_step_init(&h).is_err());
}

#[test]
fn witness_edges_of_orders() {
    let w = Witness::CommitOrder(vec![tid(1, 0), tid(2, 0), tid(1, 1)]);
    assert_eq!(witness_edges(&w), vec![(tid(1, 0), tid(2, 0)), (tid(2, 0), tid(1, 1))]);
    let w = Witness::SplitCommitOrder(vec![(tid(1, 0), false), (tid(1, 0), true), (tid(2, 0), false)]);
    assert_eq!(witness_edges(&w), vec![(tid(1, 0), tid(1, 0)), (tid(1, 0), tid(2, 0))]);
    let w = Witness::CommitOrder(vec![]);
    assert!(witness_edges(&w).is_empty());
}
