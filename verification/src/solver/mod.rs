//! The refinement engine: populations, mutations, and the loop that drives
//! them.

pub mod decompose_search;
pub mod decomposition;
pub mod evolution;
pub mod objective;
pub mod merging;
pub mod mutation;
pub mod population;
pub mod recreate;
pub mod refinement;
pub mod telemetry;
pub mod termination;
