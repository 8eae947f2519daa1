//! The immutable description of a routing problem.

pub mod common;
pub mod examples;
pub mod problem;
