//! Reading a problem as it comes from outside.

pub mod api;
pub mod break_reader;
pub mod coord_index;
pub mod fleet_reader;
pub mod ids;
pub mod job_reader;
pub mod lock_reader;
pub mod reader;
pub mod time;
