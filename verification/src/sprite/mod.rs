//! Hardware sprites: the baked blob, the slots and the per-frame entries.

pub mod asset;
pub mod engine;
pub mod slots;
