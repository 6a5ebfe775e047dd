//! A sparse voxel world: packed voxels, bricks and layer nodes drawn from
//! fixed pools, batched write queues and a binary container for rigid models.

pub mod math;
pub mod voxel;
pub mod brick;
pub mod layer0;
pub mod usage_flags;
pub mod pool;
pub mod brickmap;
pub mod kernels;
pub mod data;
pub mod world;
pub mod laws;
pub mod sdvx;
pub mod container;
pub mod glsl;
pub mod magica_voxel;
pub mod raw;
pub mod scene;
pub mod text;
pub mod console;
pub mod resources;
