//! What holds of the tree across the kernels.

pub mod pools;
pub mod content;
pub mod starvation;
pub mod reclaim;
pub mod placement;
