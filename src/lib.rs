//! Hash-based group-by engine: partitions row indices into groups of equal
//! key, sequentially or across worker partitions, and reconciles the
//! per-worker results into one grouping.

pub mod partition;
pub mod table;
pub mod model;
pub mod groups;
pub mod single;
pub mod multi;
pub mod laws;
