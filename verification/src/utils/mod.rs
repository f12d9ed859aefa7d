//! Kernels on image planes.

pub mod box_filter_3x3;
pub mod fast_gradients;
