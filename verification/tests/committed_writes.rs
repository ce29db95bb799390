//! The committed writes and all writes of a raw history.

use dbcop::history::atomic::types::TransactionId;
use dbcop::history::raw::types::{Event, EventId, Transaction};
use dbcop::history::raw::{get_all_writes, get_committed_writes};

fn eid(s: u64, t: u64, e: u64) -> EventId {
    EventId { session_id: s, session_height: t, transaction_height: e }
}

#[test]
fn committed_writes_keep_last_write_per_variable() {
    let h = vec![
        vec![
            Transaction::<&'static str, u64>::committed(vec![Event::write("x", 1), Event::write("y", 1), Event::write("x", 2)]),
            Transaction::<&'static str, u64>::uncommitted(vec![Event::write("x", 3)]),
        ],
        vec![Transaction::<&'static str, u64>::committed(vec![Event::read("x", 2), Event::write("z", 1)])],
    ];
    let got = get_committed_writes(&h);
    let t11 = TransactionId { session_id: 1, session_height: 0 };
    let t21 = TransactionId { session_id: 2, session_height: 0 };
    assert_eq!(
        got,
        vec![((t11, "y"), (1, eid(1, 0, 1))), ((t11, "x"), (2, eid(1, 0, 2))), ((t21, "z"), (1, eid(2, 0, 1)))],
    );
}

#[test]
fn committed_writes_of_history_without_writes_is_empty() {
    let h = vec![vec![Transaction::<&'static str, u64>::committed(vec![Event::read("x", 0)])]];
    assert!(get_committed_writes(&h).is_empty());
}

#[test]
fn all_writes_lists_every_write() {
    let h = vec![
        vec![Transaction::<&'static str, u64>::committed(vec![Event::write("x", 1), Event::read("x", 1)])],
        vec![Transaction::<&'static str, u64>::uncommitted(vec![Event::write("y", 1)])],
    ];
    let mut got = get_all_writes(&h).unwrap();
    got.sort();
    assert_eq!(got, vec![(Event::read("x", 1), eid(1, 0, 0)), (Event::read("y", 1), eid(2, 0, 0))]);
}

#[test]
fn all_writes_rejects_repeated_version() {
    let h = vec![
        vec![Transaction::<&'static str, u64>::committed(vec![Event::write("x", 1)])],
        vec![Transaction::<&'static str, u64>::committed(vec![Event::write("x", 1)])],
    ];
    assert!(get_all_writes(&h).is_err());
}
