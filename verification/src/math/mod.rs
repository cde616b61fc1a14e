//! 20.12 fixed-point arithmetic and the helpers built on it.

pub mod fx;
pub mod fx_vec;
pub mod hw;
pub mod mat;
pub mod mat_laws;
pub mod number_laws;
pub mod radial;
pub mod stick;
