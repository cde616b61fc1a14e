//! Backgrounds: the baked blobs and the layers that show them.

pub mod asset;
pub mod layers;
