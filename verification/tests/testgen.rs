//! Generated histories: their shape, and reads that observe existing writes.

use dbcop::history::raw::types::Event;
use dbcop::testgen::{generate_single_history, HistParams};
use dbcop::{check, Consistency};

#[test]
fn generated_history_satisfies_committed_read() {
    let sessions = generate_single_history(3, 5, 4, 6);
    assert!(!sessions.is_empty());
    check(&sessions, Consistency::CommittedRead).expect("generated history must satisfy committed-read");
}

#[test]
fn generated_history_has_the_asked_shape() {
    let sessions = generate_single_history(3, 4, 2, 5);
    assert_eq!(sessions.len(), 3);
    // The first session opens with the transaction writing every initial version.
    assert_eq!(sessions[0].len(), 3);
    assert_eq!(sessions[0][0].events, (0..4).map(|v| Event::write(v, 0)).collect::<Vec<_>>());
    for (s, session) in sessions.iter().enumerate() {
        if s > 0 {
            assert_eq!(session.len(), 2);
        }
        for (t, txn) in session.iter().enumerate() {
            assert!(txn.committed);
            if !(s == 0 && t == 0) {
                assert_eq!(txn.events.len(), 5);
            }
        }
    }
}

#[test]
fn generated_reads_observe_written_versions() {
    for _ in 0..20 {
        let sessions = generate_single_history(4, 3, 3, 4);
        let writes: Vec<(u64, u64)> = sessions
            .iter()
            .flatten()
            .flat_map(|t| t.events.iter())
            .filter_map(|e| match e {
                Event::Write { variable, version } => Some((*variable, *version)),
                Event::Read { .. } => None,
            })
            .collect();
        for event in sessions.iter().flatten().flat_map(|t| t.events.iter()) {
            match event {
                Event::Read { variable, version } => {
                    let v = version.expect("generated reads name a version");
                    assert!(writes.contains(&(*variable, v)));
                    assert!(*variable < 3);
                },
                Event::Write { variable, .. } => assert!(*variable < 3),
            }
        }
    }
}

#[test]
fn no_sessions_without_nodes() {
    assert!(generate_single_history(0, 2, 3, 3).is_empty());
}

#[test]
fn hist_params_default_is_zero() {
    let p = HistParams::default();
    assert_eq!((p.id, p.n_node, p.n_variable, p.n_transaction, p.n_event), (0, 0, 0, 0, 0));
}

#[test]
fn generated_writes_are_unique() {
    for _ in 0..20 {
        let sessions = generate_single_history(4, 2, 3, 5);
        let mut writes: Vec<(u64, u64)> = sessions
            .iter()
            .flatten()
            .flat_map(|t| t.events.iter())
            .filter_map(|e| match e {
                Event::Write { variable, version } => Some((*variable, *version)),
                Event::Read { .. } => None,
            })
            .collect();
        let n = writes.len();
        writes.sort();
        writes.dedup();
        assert_eq!(writes.len(), n);
    }
}
