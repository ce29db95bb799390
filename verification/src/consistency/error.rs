//! Why a history fails a consistency check.
use vstd::prelude::*;

use crate::consistency::Consistency;
use crate::history::atomic::types::TransactionId;
use crate::history::raw::error::Error as NonAtomicError;

verus! {

/// Error returned when a history fails a consistency check.
#[derive(Debug)]
pub enum Error<Variable, Version> {
    /// The history has a structural issue (e.g. a read observes an
    /// uncommitted write).
    NonAtomic(NonAtomicError<Variable, Version>),
    /// The history violates the specified consistency level.
    Invalid(Consistency),
    /// The visibility relation forced by the level has a cycle through the
    /// edge from `a` to `b`.
    Cycle { level: Consistency, a: TransactionId, b: TransactionId },
}

} // verus!
