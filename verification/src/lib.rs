//! Exhaustive search for quadruples of periodic sequences, their reduction
//! up to equivalence, and the linear equations that tie two of the four
//! sequences to the other two.

pub mod find;
pub mod find_naive;
pub mod sequences;
