//! Verified core of a Nintendo DS game platform: fixed-point maths, touch-loop
//! geometry, asset formats, hardware command encoding and the small state
//! machines around them.

pub mod audio;
pub mod bake;
pub mod bg;
pub mod bytes;
pub mod clock;
pub mod diagnostics;
pub mod float;
pub mod gpu;
pub mod input;
pub mod loops;
pub mod math;
pub mod name_map;
pub mod perfread;
pub mod rtc;
pub mod runtime_laws;
pub mod save;
pub mod scene;
pub mod sprite;
pub mod strings;
pub mod text;
pub mod video;
