//! The exhaustive searches.

pub mod enumeration;
pub mod find_unique;
pub mod find_williamson;
