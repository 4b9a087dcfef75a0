//! Predicate pushdown: moves row filters as close to the scans as the
//! nodes in between allow.

pub mod boundaries;
pub mod drained;
pub mod driver;
pub mod everywhere;
pub mod idempotent;
pub mod join;
pub mod laws;
pub mod layout;
pub mod model;
pub mod placed;
pub mod refine;
pub mod rename;
pub mod rewritten;
pub mod utils;
