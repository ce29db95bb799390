//! What a successful check hands back as evidence.
use vstd::prelude::*;

use crate::graph::digraph::DiGraph;
use crate::history::atomic::types::TransactionId;

verus! {

/// Evidence that a history satisfies a consistency level.
#[derive(Debug)]
pub enum Witness {
    /// A commit order of the transactions, for Prefix consistency and
    /// Serializability.
    CommitOrder(Vec<TransactionId>),
    /// An order of read (`false`) and write (`true`) phases, for Snapshot
    /// Isolation.
    SplitCommitOrder(Vec<(TransactionId, bool)>),
    /// The visibility relation that saturation reached, for Read Committed,
    /// Repeatable Read, Atomic Read and Causal consistency.
    SaturationOrder(DiGraph),
}

} // verus!
