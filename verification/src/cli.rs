//! The command line of the checker: its commands and their arguments, and
//! the rules its commands follow on the files they meet.
use vstd::prelude::*;

use crate::consistency::Consistency;
use crate::history::raw::display::{format_history, history_text};
use crate::history::raw::parser::{history_of, parse_history, session_views, ParseError};
use crate::label::str_equal;

verus! {

/// The command line: one command.
#[derive(Debug)]
pub struct App {
    pub command: Command,
}

/// The commands of the command line.
#[derive(Debug)]
pub enum Command {
    /// Generate random transactional histories.
    Generate(GenerateArgs),
    /// Verify consistency of transactional histories.
    Verify(VerifyArgs),
    /// Format compact history files.
    Fmt(FmtArgs),
    /// Print the JSON Schema for the history input format.
    Schema,
}

/// Arguments of the `generate` command.
#[derive(Debug)]
pub struct GenerateArgs {
    /// Number of histories to generate.
    pub n_hist: u64,
    /// Number of nodes (sessions).
    pub n_node: u64,
    /// Number of variables.
    pub n_var: u64,
    /// Number of transactions per node.
    pub n_txn: u64,
    /// Number of events per transaction.
    pub n_evt: u64,
    /// Output directory for generated history files.
    pub output_dir: String,
}

/// Arguments of the `verify` command.
#[derive(Debug)]
pub struct VerifyArgs {
    /// Input directory containing history files.
    pub input_dir: String,
    /// Consistency level to check.
    pub consistency: ConsistencyLevel,
    /// Print witness details on success and full error details on failure.
    pub verbose: bool,
    /// Output results as JSON, one object per file.
    pub json: bool,
}

/// The consistency levels the command line accepts.
#[derive(Debug, Clone, Copy, PartialEq, Eq, Structural)]
pub enum ConsistencyLevel {
    CommittedRead,
    AtomicRead,
    Causal,
    Prefix,
    SnapshotIsolation,
    Serializable,
}

/// Arguments of the `fmt` command.
#[derive(Debug)]
pub struct FmtArgs {
    /// Input files or directories to format.
    pub paths: Vec<String>,
    /// Check formatting without modifying files.
    pub check: bool,
}

/// The consistency level that a command-line level names.
pub open spec fn level_of(level: ConsistencyLevel) -> Consistency {
    match level {
        ConsistencyLevel::CommittedRead => Consistency::CommittedRead,
        ConsistencyLevel::AtomicRead => Consistency::AtomicRead,
        ConsistencyLevel::Causal => Consistency::Causal,
        ConsistencyLevel::Prefix => Consistency::Prefix,
        ConsistencyLevel::SnapshotIsolation => Consistency::SnapshotIsolation,
        ConsistencyLevel::Serializable => Consistency::Serializable,
    }
}

impl From<ConsistencyLevel> for Consistency {
    fn from(level: ConsistencyLevel) -> (r: Self) {
        match level {
            ConsistencyLevel::CommittedRead => Consistency::CommittedRead,
            ConsistencyLevel::AtomicRead => Consistency::AtomicRead,
            ConsistencyLevel::Causal => Consistency::Causal,
            ConsistencyLevel::Prefix => Consistency::Prefix,
            ConsistencyLevel::SnapshotIsolation => Consistency::SnapshotIsolation,
            ConsistencyLevel::Serializable => Consistency::Serializable,
        }
    }
}

impl vstd::std_specs::convert::FromSpecImpl<ConsistencyLevel> for Consistency {
    open spec fn obeys_from_spec() -> bool {
        true
    }

    open spec fn from_spec(level: ConsistencyLevel) -> Consistency {
        level_of(level)
    }
}

/// Whether `verify` reads a file with this extension: `json`, `hist` or
/// `txt`.
pub fn is_history_extension(ext: &str) -> (r: bool)
    ensures
        r == (ext@ == "json"@ || ext@ == "hist"@ || ext@ == "txt"@),
{
    str_equal(ext, "json") || str_equal(ext, "hist") || str_equal(ext, "txt")
}

/// Parses a compact history and prints it back in its canonical form.
/// Returns the canonical text and whether it differs from `content`, which
/// the `fmt` command then rewrites or reports.
///
/// # Errors
///
/// The parse error of `content`.
pub fn format_check(content: &str) -> (r: Result<(String, bool), ParseError>)
    requires
        content@.len() < usize::MAX,
    ensures
        r is Ok <==> history_of(content@) is Ok,
        r matches Ok((text, changed)) ==> exists|ss: Seq<crate::history::raw::types::Session<String, u64>>|
            history_of(content@) == Ok::<Seq<Seq<crate::history::raw::parser::TxnV>>, int>(session_views(ss))
            && #[trigger] history_text(ss) == text@ && changed == (text@ != content@),
{
    match parse_history(content) {
        Ok(sessions) => {
            let text = format_history(&sessions);
            let same = str_equal(text.as_str(), content);
            proof {
                assert(history_text(sessions@) == text@);
            }
            Ok((text, !same))
        },
        Err(e) => Err(e),
    }
}

} // verus!
