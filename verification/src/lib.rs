//! Exact byte-count units and process-tree memory aggregation.

pub mod aggregate;
pub mod hierarchy;
pub mod memory;
pub mod ranking;
pub mod utils;
