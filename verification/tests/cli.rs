//! The command line's levels, the files `verify` reads, and `fmt`'s check.

use dbcop::cli::{format_check, is_history_extension, ConsistencyLevel};
use dbcop::drivers::{AntidoteDbError, ClusterConfig, GaleraDriver};
use dbcop::Consistency;

#[test]
fn levels_convert_one_for_one() {
    assert_eq!(Consistency::from(ConsistencyLevel::CommittedRead), Consistency::CommittedRead);
    assert_eq!(Consistency::from(ConsistencyLevel::AtomicRead), Consistency::AtomicRead);
    assert_eq!(Consistency::from(ConsistencyLevel::Causal), Consistency::Causal);
    assert_eq!(Consistency::from(ConsistencyLevel::Prefix), Consistency::Prefix);
    assert_eq!(Consistency::from(ConsistencyLevel::SnapshotIsolation), Consistency::SnapshotIsolation);
    assert_eq!(Consistency::from(ConsistencyLevel::Serializable), Consistency::Serializable);
}

#[test]
fn verify_reads_json_hist_and_txt() {
    assert!(is_history_extension("json"));
    assert!(is_history_extension("hist"));
    assert!(is_history_extension("txt"));
    assert!(!is_history_extension("md"));
    assert!(!is_history_extension("JSON"));
}

#[test]
fn format_check_reports_changes() {
    let (text, changed) = format_check("[x:=1]\n---\n[x==1]\n").expect("parses");
    assert_eq!(text, "[x:=1]\n---\n[x==1]\n");
    assert!(!changed);

    let (text, changed) = format_check("// session 1\n[x:=1]\n---\n[x==1]\n").expect("parses");
    assert_eq!(text, "[x:=1]\n---\n[x==1]\n");
    assert!(changed);

    assert!(format_check("[x:=1]\n@bad\n").is_err());
}

#[test]
fn driver_configuration_holds_its_values() {
    let config = ClusterConfig { hosts: vec!["db1".to_string()], port: 3306, db_name: "test".to_string() };
    let driver = GaleraDriver { config };
    assert_eq!(driver.config.port, 3306);
    assert!(matches!(AntidoteDbError::Connection("refused".to_string()), AntidoteDbError::Connection(_)));
}
