//! A fixed-point fractal display engine: numeric kernels, a voxel lookup
//! table, a raymarcher and a scanline-synchronised frame pipeline.
pub mod divide;
pub mod fixed;
pub mod frame;
pub mod julia;
pub mod raymarch;
pub mod voxel;
