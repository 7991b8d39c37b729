//! Indexed, multi-pass loading of GFA sequence graphs into a handle graph,
//! with progress events for an observer.

pub mod error;
pub mod graph;
pub mod interface;
pub mod io;
pub mod load_spec;
pub mod mmap_gfa;
pub mod record;
pub mod session;
