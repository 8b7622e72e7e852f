use vstd::prelude::*;

pub mod ambient_cube;
pub mod args;
pub mod bvh;
pub mod device;
pub mod frame;
pub mod harness;
pub mod input;
pub mod lightmap_uv;
pub mod mesh;
pub mod readback;
pub mod rng;
pub mod shader;
pub mod stats;
pub mod swapchain;
pub mod text;
pub mod texture;
pub mod viewer;
