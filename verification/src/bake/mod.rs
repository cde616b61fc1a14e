//! Asset baking: encoders for the binary formats the runtime reads, and the
//! generated constants that name the baked files.

pub mod asset_laws;
pub mod check_laws;
pub mod cli;
pub mod cli_laws;
pub mod const_tree;
pub mod files;
pub mod level_laws;
pub mod levels;
pub mod link;
pub mod listing_laws;
pub mod macro_laws;
pub mod model_macro;
pub mod names;
pub mod obj;
pub mod obj2dl;
pub mod obj_laws;
pub mod png2bg;
pub mod png2sprite;
pub mod scene2bin;
pub mod text_laws;
pub mod text_scan;
pub mod tools;
pub mod wav;
pub mod wav2bank;
