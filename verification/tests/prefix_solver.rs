//! The Prefix consistency search on small histories.

use dbcop::consistency::causal::check_causal_read;
use dbcop::consistency::prefix::PrefixConsistencySolver;
use dbcop::history::raw::types::{Event, Session, Transaction};

type History = Vec<Session<&'static str, u64>>;

fn build_prefix_solver(history: &History) -> PrefixConsistencySolver<&'static str> {
    let po = check_causal_read(history).unwrap();
    PrefixConsistencySolver::from(po)
}

#[test]
fn simple_prefix_consistent_history() {
    let history: History = vec![
        vec![Transaction::committed(vec![Event::write("x", 1)])],
        vec![Transaction::committed(vec![Event::read("x", 1)])],
    ];
    let mut solver = build_prefix_solver(&history);
    let result = solver.get_linearization();
    assert!(result.is_some(), "expected a valid linearization");
    let lin = result.unwrap();
    assert!(!lin.is_empty());
    assert_eq!(lin.iter().filter(|(_, is_write)| *is_write).count(), 2, "expected 2 write-phase entries",);
}

#[test]
fn prefix_consistent_chain() {
    let history: History = vec![
        vec![Transaction::committed(vec![Event::write("x", 1)])],
        vec![Transaction::committed(vec![Event::read("x", 1), Event::write("y", 1)])],
        vec![Transaction::committed(vec![Event::read("y", 1)])],
    ];
    let mut solver = build_prefix_solver(&history);
    let result = solver.get_linearization();
    assert!(result.is_some(), "chain should be prefix-consistent");
}

#[test]
fn concurrent_writes_pass_prefix() {
    let history: History = vec![
        vec![Transaction::committed(vec![Event::write("x", 1)])],
        vec![Transaction::committed(vec![Event::read("x", 1), Event::write("x", 2)])],
        vec![Transaction::committed(vec![Event::read("x", 1), Event::write("x", 3)])],
    ];
    let mut solver = build_prefix_solver(&history);
    let result = solver.get_linearization();
    assert!(result.is_some(), "concurrent writes should pass prefix consistency");
    let lin = result.unwrap();
    assert_eq!(lin.iter().filter(|(_, is_write)| *is_write).count(), 3, "expected 3 write-phase entries",);
}

#[test]
fn multi_variable_prefix_consistent() {
    let history: History = vec![
        vec![Transaction::committed(vec![Event::write("x", 1), Event::write("y", 1)])],
        vec![Transaction::committed(vec![Event::read("x", 1), Event::write("z", 1)])],
        vec![Transaction::committed(vec![Event::read("y", 1), Event::read("z", 1)])],
    ];
    let mut solver = build_prefix_solver(&history);
    let result = solver.get_linearization();
    assert!(result.is_some(), "multi-variable chain should be prefix-consistent");
    let lin = result.unwrap();
    assert_eq!(lin.iter().filter(|(_, is_write)| *is_write).count(), 3, "expected 3 write-phase entries",);
}
