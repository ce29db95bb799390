//! Consistency checking for transactional histories.
pub mod cli;
pub mod collections;
pub mod consistency;
pub mod drivers;
pub mod graph;
pub mod history;
pub mod label;
pub mod sat;
pub mod stepping;
pub mod testgen;

pub use crate::consistency::{check, Consistency};
