//! The compact text form of whole histories.

use dbcop::history::raw::display::format_history;
use dbcop::history::raw::types::{Event, Session, Transaction};

#[test]
fn test_format_history_single_session() {
    let sessions = vec![vec![
        Transaction::<&str, u64>::committed(vec![Event::write("x", 1), Event::write("y", 1)]),
        Transaction::committed(vec![Event::read("z", 2), Event::write("z", 3)]),
    ]];
    let result = format_history(&sessions);
    assert_eq!(result, "[x:=1 y:=1]\n[z==2 z:=3]\n");
}

#[test]
fn test_format_history_two_sessions() {
    let sessions = vec![
        vec![
            Transaction::<&str, u64>::committed(vec![Event::write("x", 1), Event::write("y", 1)]),
            Transaction::committed(vec![Event::read("z", 2), Event::write("z", 3)]),
        ],
        vec![Transaction::committed(vec![
            Event::read("a", 1),
            Event::write("b", 3),
        ])],
    ];
    let result = format_history(&sessions);
    assert_eq!(result, "[x:=1 y:=1]\n[z==2 z:=3]\n---\n[a==1 b:=3]\n");
}

#[test]
fn test_format_history_empty() {
    let sessions: Vec<Session<&str, u64>> = vec![];
    let result = format_history(&sessions);
    assert_eq!(result, "");
}

#[test]
fn test_format_history_uncommitted() {
    let sessions = vec![vec![Transaction::<&str, u64>::uncommitted(vec![Event::write("x", 1)])]];
    let result = format_history(&sessions);
    assert_eq!(result, "[x:=1]!\n");
}

#[test]
fn format_history_with_numeric_variables() {
    let sessions = vec![vec![Transaction::<u64, u64>::committed(vec![Event::read_empty(3)])]];
    assert_eq!(format_history(&sessions), "[3==?]\n");
}
