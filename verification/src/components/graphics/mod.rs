//! Components that draw through the GPU or rasterise on the CPU.

pub mod applied_filter;
pub mod gl_util;
pub mod gpu_surface;
pub mod picture;
pub mod shared_gpu;
