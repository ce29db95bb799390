//! Saturation checks on histories that break each level.

use dbcop::consistency::atomic_read::check_atomic_read;
use dbcop::consistency::causal::check_causal_read;
use dbcop::consistency::committed_read::check_committed_read;
use dbcop::consistency::error::Error;
use dbcop::consistency::repeatable_read::check_repeatable_read;
use dbcop::history::raw::error::Error as NonAtomicError;
use dbcop::history::raw::types::{Event, EventId, Transaction};
use dbcop::Consistency;

#[test]
fn atomic_read_test_atomic_read() {
    // Fractured visibility history: AtomicRead should detect a cycle after
    // adding ww edges.
    let histories = vec![
        vec![Transaction::committed(vec![Event::write("x", 1), Event::write("y", 1)])],
        vec![Transaction::committed(vec![Event::read("y", 1), Event::write("x", 2), Event::write("z", 1)])],
        vec![Transaction::committed(vec![Event::read("x", 1), Event::read("z", 1)])],
    ];

    let result = check_atomic_read(&histories);

    assert!(matches!(result, Err(Error::Cycle { level: Consistency::AtomicRead, .. })));
}

#[test]
fn causal_test_atomic_read() {
    let histories = vec![
        vec![Transaction::committed(vec![Event::write("x", 1), Event::write("a", 1)])],
        vec![Transaction::committed(vec![Event::read("x", 1), Event::write("y", 1)])],
        vec![Transaction::committed(vec![Event::read("y", 1), Event::write("z", 1)])],
        vec![Transaction::committed(vec![Event::read("z", 1), Event::write("a", 2)])],
        vec![Transaction::committed(vec![Event::read("a", 2), Event::write("p", 1)])],
        vec![Transaction::committed(vec![Event::read("p", 1), Event::write("q", 1)])],
        vec![Transaction::committed(vec![Event::read("q", 1), Event::read("a", 1)])],
    ];

    assert!(check_atomic_read(&histories).is_ok());

    assert!(matches!(check_causal_read(&histories), Err(Error::Cycle { level: Consistency::Causal, .. })));
}

#[test]
fn test_invalid_committed_read_history() {
    let histories = vec![
        vec![Transaction::committed(vec![Event::write("x", 2), Event::write("y", 1)])],
        vec![Transaction::committed(vec![Event::write("x", 3), Event::read("y", 1)])],
        vec![Transaction::committed(vec![Event::read("x", 3), Event::read("x", 2)])],
    ];

    let result = check_committed_read(&histories);

    assert!(matches!(result, Err(Error::Cycle { level: Consistency::CommittedRead, .. })), "result: {result:?}",);
}

#[test]
fn test_non_repeatable_read() {
    let histories = vec![
        vec![Transaction::committed(vec![Event::write("x", 2)])],
        vec![Transaction::committed(vec![Event::write("x", 3)])],
        vec![Transaction::committed(vec![Event::read("x", 2), Event::read("x", 3)])],
    ];

    let result = check_repeatable_read(&histories);

    assert!(
        matches!(
            result,
            Err(Error::NonAtomic(NonAtomicError::NonRepeatableRead {
                read_event: Event::Read { variable: "x", version: Some(3) },
                read_event_id: EventId { session_id: 3, session_height: 0, transaction_height: 1 },
                write_event_ids: [
                    EventId { session_id: 1, session_height: 0, transaction_height: 0 },
                    EventId { session_id: 2, session_height: 0, transaction_height: 0 },
                ]
            }))
        ),
        "result: {result:?}",
    );
}
