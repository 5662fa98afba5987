//! A compact bit-packed digest of a factory-planner graph.
pub mod bits;
pub mod fields;
pub mod subbit;
pub mod state;
pub mod edges;
pub mod digest;
pub mod token;
