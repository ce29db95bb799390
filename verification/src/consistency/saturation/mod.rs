//! Polynomial checks that saturate a visibility relation.
pub mod atomic_read;
pub mod causal;
pub mod committed_read;
pub mod repeatable_read;
