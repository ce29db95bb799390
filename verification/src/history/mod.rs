//! Transactional histories: raw sessions and their atomic abstraction.
pub mod atomic;
pub mod raw;
