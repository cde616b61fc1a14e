//! The 3D engine: command words, display lists, meshes and the per-frame command
//! sequence.

pub mod display_list;
pub mod frame_laws;
pub mod list_laws;
pub mod mesh;
pub mod render;
pub mod words;
