//! Checks that search for a linearization of the transactions.
pub mod constrained_linearization;
pub mod prefix;
pub mod serializable;
pub mod snapshot_isolation;
