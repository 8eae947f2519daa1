//! Small building blocks shared by the other modules.

pub mod index_set;
pub mod numeric;
pub mod random;
pub mod search;
