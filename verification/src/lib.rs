//! A vehicle routing solver core: the problem model, the working state of a
//! candidate solution, the constraint pipeline that keeps derived route state,
//! and the evolutionary refinement engine with its decomposition mutation.
//!
//! All quantities are integers. Distances and travel times come from matrices
//! whose negative entries mark pairs of locations without a route.

pub mod utils;
pub mod models;
pub mod construction;
pub mod format;
pub mod solver;
