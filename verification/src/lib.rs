//! Packing of registry packages into npm tarballs.
//!
//! A package is described by its module graph, its exports, its dependencies and its remaining
//! files. The library decides which files the npm package holds, what they contain, and how they
//! are laid out in the gzipped archive.

pub mod text;
pub mod maps;
pub mod convert;
pub mod exports;
pub mod dependencies;
pub mod error;
pub mod source;
pub mod rewrite;
pub mod address;
pub mod bin;
pub mod graph;
pub mod files;
pub mod emit;
pub mod digest;
pub mod archive;
pub mod manifest;
pub mod tarball;
pub mod laws;
pub mod contents;
pub mod packages;
pub mod outcomes;
pub mod failures;
pub mod repeatable;
