//! Validity of raw histories: every read observes a visible write.

use dbcop::history::raw::error::Error;
use dbcop::history::raw::is_valid_history;
use dbcop::history::raw::types::{Event, EventId, Transaction};

#[test]
fn test_incomplete_history() {
    let histories = vec![
        vec![Transaction::<&str, u64>::committed(vec![Event::read_empty("a")])],
        vec![Transaction::committed(vec![Event::write("a", 0)])],
        vec![Transaction::committed(vec![Event::read("a", 1)])],
    ];

    let result = is_valid_history(&histories);

    assert!(
        matches!(
            result,
            Err(Error::IncompleteHistory {
                event: Event::Read {
                    variable: "a",
                    version: Some(1)
                },
                id: EventId {
                    session_id: 3,
                    session_height: 0,
                    transaction_height: 0,
                }
            })
        ),
        "complete history check failed: {result:?}"
    );
}

#[test]
fn test_uncommitted_reads() {
    let histories = vec![
        vec![Transaction::<&str, u64>::uncommitted(vec![Event::write("a", 0)])],
        vec![Transaction::committed(vec![Event::read("a", 0)])],
    ];

    let result = is_valid_history(&histories);

    assert!(
        matches!(
            result,
            Err(Error::UncommittedWrite {
                read_event: Event::Read {
                    variable: "a",
                    version: Some(0)
                },
                read_event_id: EventId {
                    session_id: 2,
                    session_height: 0,
                    transaction_height: 0,
                },
                write_event_id: EventId {
                    session_id: 1,
                    session_height: 0,
                    transaction_height: 0,
                }
            })
        ),
        "committed reads check failed: {result:?}"
    );
}

#[test]
fn test_overwritten_reads() {
    let histories = vec![
        vec![Transaction::committed(vec![
            Event::write("a", 0),
            Event::write("a", 1),
        ])],
        vec![Transaction::committed(vec![Event::read("a", 0)])],
    ];

    let result = is_valid_history(&histories);

    assert!(
        matches!(
            result,
            Err(Error::OverwrittenRead {
                read_event: Event::Read {
                    variable: "a",
                    version: Some(0)
                },
                read_event_id: EventId {
                    session_id: 2,
                    session_height: 0,
                    transaction_height: 0,
                },
                overwritten_write_event_id: EventId {
                    session_id: 1,
                    session_height: 0,
                    transaction_height: 0,
                },
                committed_write_event: Event::Write {
                    variable: "a",
                    version: 1
                },
                committed_write_event_id: EventId {
                    session_id: 1,
                    session_height: 0,
                    transaction_height: 1,
                }
            })
        ),
        "non-overwritten reads check failed: {result:?}"
    );
}

#[test]
fn test_inconsistent_local_reads() {
    let histories = vec![vec![Transaction::<&str, u64>::committed(vec![
        Event::write("a", 0),
        Event::read("a", 1),
        Event::write("a", 1),
    ])]];

    let result = is_valid_history(&histories);

    assert!(
        matches!(
            result,
            Err(Error::InconsistentLocalRead {
                read_event_id: EventId {
                    session_id: 1,
                    session_height: 0,
                    transaction_height: 1,
                },
                write_event_id: EventId {
                    session_id: 1,
                    session_height: 0,
                    transaction_height: 2,
                },
                read_event: Event::Read {
                    variable: "a",
                    version: Some(1)
                }
            })
        ),
        "consistent local reads check failed: {result:?}"
    );
}
