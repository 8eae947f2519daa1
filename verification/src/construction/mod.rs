//! The working state of a candidate solution and what keeps it consistent.

pub mod constraints;
pub mod context;
pub mod evaluation;
pub mod feasibility;
pub mod heuristics;
pub mod insertion_laws;
pub mod lock_laws;
pub mod locking;
pub mod metrics;
pub mod seeding;
pub mod validity;
