//! A verified single-user task tracker.
//!
//! The library keeps an ordered list of tasks whose numeric identifiers are
//! always exactly `1..=N` in list order, and provides a JSON codec so that a
//! thin driver can persist the list to a file between runs.

pub mod codec;
pub mod num;
pub mod store;
