//! A read-only, random-access archive container.
//!
//! An archive ends with a fixed-size footer that says where each of its six
//! sections lies. This crate decodes and validates that footer, the entries
//! of the file tree and the runs of the compression index, looks paths up in
//! the tree with case-insensitive names, and keeps a validated footer with
//! the byte source it came from.
pub mod archive;
pub mod big_endian;
pub mod entry;
pub mod error;
pub mod footer;
pub mod index;
pub mod path;
pub mod tree;
