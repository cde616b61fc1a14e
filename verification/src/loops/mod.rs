//! Capture-loop geometry: did a stylus stroke close into a loop, what does the
//! loop enclose, and which pixels paint the stroke.

pub mod aa_laws;
pub mod geometry;
pub mod geometry_laws;
pub mod glow;
pub mod glow_laws;
pub mod measure_laws;
pub mod raster;
pub mod raster_laws;
pub mod stroke;
pub mod trail_laws;
