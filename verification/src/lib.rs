//! Core of a static-site build pipeline: a logical file map that merges
//! several physical directory trees into one addressable namespace, a
//! metadata builder that walks that namespace and compiles each document
//! exactly once, and a compile-once/render-once document cache.
#![verifier::loop_isolation(false)]

pub mod paths;
pub mod store;
pub mod file_map;
pub mod text;
pub mod compile;
pub mod meta;
pub mod sort;
pub mod config;
pub mod assets;
pub mod render;
pub mod rss;
