//! Events, transactions and their text forms.

use dbcop::history::atomic::types::TransactionId;
use dbcop::history::raw::types::{Event, EventId, Transaction};

#[test]
fn test_event() {
    let mut event = Event::<u64, u64>::read_empty(1);
    assert_eq!(
        event,
        Event::Read {
            variable: 1,
            version: None
        }
    );
    event = Event::write(1, 2);
    assert_eq!(
        event,
        Event::Write {
            variable: 1,
            version: 2
        }
    );
}

#[test]
fn test_event_id() {
    let event_id = EventId {
        session_id: 1,
        session_height: 2,
        transaction_height: 3,
    };
    assert_eq!(
        event_id.transaction_id(),
        TransactionId {
            session_id: 1,
            session_height: 2
        }
    );
}

#[test]
fn test_event_debug() {
    let mut event = Event::<u64, u64>::read_empty(1);
    assert_eq!(event.to_debug_text(), "1=>?");
    event = Event::Read {
        variable: 1,
        version: Some(3),
    };
    assert_eq!(event.to_debug_text(), "1=>3");
    event = Event::write(1, 2);
    assert_eq!(event.to_debug_text(), "1<=2");
}

#[test]
fn test_transaction_debug() {
    let mut transaction = Transaction::<u64, u64> {
        events: vec![Event::read_empty(1), Event::write(1, 2)],
        committed: true,
    };
    assert_eq!(transaction.to_debug_text(), "[1=>?, 1<=2]");
    transaction.committed = false;
    assert_eq!(transaction.to_debug_text(), "[1=>?, 1<=2]!");
}

#[test]
fn test_event_display() {
    assert_eq!(Event::<&str, u64>::write("x", 1).to_text(), "x:=1");
    assert_eq!(Event::<&str, u64>::read("x", 1).to_text(), "x==1");
    assert_eq!(Event::<&str, u64>::read_empty("x").to_text(), "x==?");
}

#[test]
fn test_transaction_display() {
    let txn = Transaction::<&str, u64>::committed(vec![Event::write("x", 1), Event::read("y", 2)]);
    assert_eq!(txn.to_text(), "[x:=1 y==2]");
    let txn = Transaction::<&str, u64>::uncommitted(vec![Event::write("x", 1)]);
    assert_eq!(txn.to_text(), "[x:=1]!");
}

#[test]
fn event_accessors_report_variable_and_version() {
    let w = Event::<&str, u64>::write("k", 7);
    assert_eq!(w.variable(), "k");
    assert_eq!(w.version(), Some(7));
    let r = Event::<&str, u64>::read_empty("k");
    assert_eq!(r.version(), None);
}

#[test]
fn string_labels_print_their_text() {
    let e = Event::<String, u64>::write("acct".to_string(), 12);
    assert_eq!(e.to_text(), "acct:=12");
}
