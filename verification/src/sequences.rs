//! The sequence quadruple, its symmetries and the equations derived from it.

pub mod arithmetic;
pub mod decimal;
pub mod equations;
pub mod equivalence;
pub mod inverse;
pub mod orbit;
pub mod order;
pub mod raw;
pub mod rowsum;
pub mod symmetries;
pub mod transform;
pub mod williamson;
