//! Disk-backed dataset store: block layout, manifest encoding, build
//! planning and a bounded LRU block cache.

pub mod layout;
pub mod manifest;
pub mod plan;
pub mod cache;
pub mod generator;
pub mod model;
