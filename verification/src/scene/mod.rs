//! Baked scenes: the blob format, its reader and what a loaded scene spawns.

pub mod asset;
pub mod layout_laws;
pub mod paths;
pub mod wire;
pub mod zone;
