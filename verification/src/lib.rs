//! A deduplicating column store kept in natural order.
//!
//! `compare` defines the order of the stored byte strings; `IdxBinary` ties
//! an index file to the data file that holds the bytes.

pub mod compare;
pub mod digits;
pub mod runs;
pub mod store;

pub use compare::compare;
pub use store::{IdxBinary, Placement};
