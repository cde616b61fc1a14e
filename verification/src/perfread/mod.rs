//! Reading the frame-time record out of a running program through a debugger
//! stub: the remote protocol's packets, memory reads in small pieces, the search
//! for the record, its decoding and the statistics of its samples.

pub mod args;
pub mod args_laws;
pub mod blob;
pub mod memory;
pub mod packet;
pub mod stats;
