//! SAT-based checks on small histories, and their agreement with the search.

use dbcop::history::raw::types::{Event, Session, Transaction};
use dbcop::sat::{check_prefix, check_serializable, check_snapshot_isolation};
use dbcop::{check, Consistency};

fn serializable_history() -> Vec<Session<&'static str, u64>> {
    vec![
        vec![Transaction::committed(vec![
            Event::write("x", 1),
            Event::write("y", 1),
        ])],
        vec![Transaction::committed(vec![
            Event::read("x", 1),
            Event::write("y", 2),
        ])],
        vec![Transaction::committed(vec![
            Event::read("y", 2),
            Event::write("x", 2),
        ])],
    ]
}

fn non_serializable_history() -> Vec<Session<&'static str, u64>> {
    // write skew: t1 reads x, writes y; t2 reads y, writes x
    // both read from t0, but their writes conflict
    vec![
        vec![Transaction::committed(vec![
            Event::write("x", 1),
            Event::write("y", 1),
        ])],
        vec![Transaction::committed(vec![
            Event::read("x", 1),
            Event::write("y", 2),
        ])],
        vec![Transaction::committed(vec![
            Event::read("y", 1),
            Event::write("x", 2),
        ])],
    ]
}

#[test]
fn test_serializable_sat() {
    assert!(check_serializable(&serializable_history()).is_ok());
}

#[test]
fn test_serializable_violation_sat() {
    assert!(check_serializable(&non_serializable_history()).is_err());
}

#[test]
fn test_prefix_sat() {
    assert!(check_prefix(&serializable_history()).is_ok());
}

#[test]
fn test_prefix_allows_non_serializable() {
    // Prefix is weaker than serializable -- write skew is allowed
    assert!(check_prefix(&non_serializable_history()).is_ok());
}

#[test]
fn test_si_sat() {
    assert!(check_snapshot_isolation(&serializable_history()).is_ok());
}

#[test]
fn test_si_allows_write_skew() {
    // Write skew has disjoint write sets, so SI allows it
    assert!(check_snapshot_isolation(&non_serializable_history()).is_ok());
}

#[test]
fn test_si_rejects_overlapping_writes() {
    // Two concurrent transactions both write x (overlapping write sets)
    // t0: write(x,1)
    // t1: read(x,1), write(x,2)
    // t2: read(x,1), write(x,3)
    // SI should reject: t1 and t2 both write x and are concurrent
    let history: Vec<Session<&str, u64>> = vec![
        vec![Transaction::committed(vec![Event::write("x", 1)])],
        vec![Transaction::committed(vec![
            Event::read("x", 1),
            Event::write("x", 2),
        ])],
        vec![Transaction::committed(vec![
            Event::read("x", 1),
            Event::write("x", 3),
        ])],
    ];
    assert!(check_snapshot_isolation(&history).is_err());
}

#[test]
fn test_agreement_with_core_serializable() {
    // Compare SAT solver with DFS solver on a known-serializable history
    let history = serializable_history();
    let core_result = check(&history, Consistency::Serializable);
    let sat_result = check_serializable(&history);
    assert_eq!(core_result.is_ok(), sat_result.is_ok());
}

#[test]
fn test_agreement_with_core_non_serializable() {
    let history = non_serializable_history();
    let core_result = check(&history, Consistency::Serializable);
    let sat_result = check_serializable(&history);
    assert_eq!(core_result.is_ok(), sat_result.is_ok());
}
