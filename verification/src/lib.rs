//! Block-based file synchronization: rolling checksums, block maps, deltas and
//! the decisions that bring a destination tree up to date with a source tree.

pub mod apply;
pub mod blocks;
pub mod delta;
pub mod laws;
pub mod meta;
pub mod names;
pub mod rolling;
pub mod runs;
pub mod strong;
pub mod walk;
