//! Finds files with identical content under a directory tree.
//!
//! A scan has three parts. The walk goes through the tree, breadth first and
//! as deep as the recursion mode allows, and comes across the regular files
//! that are not empty (`walker`). The first pass keeps the files that share
//! their size with another file; only those are read and hashed (`digest`).
//! The second pass groups them by digest and keeps the groups with more than
//! one member (`grouper`).
//!
//! The library decides and computes; reading the disk is left to the caller,
//! who hands in directory listings and file contents as plain values.
//!
//! `tree`, `group_laws` and `pipeline` state and prove what a scan can be
//! relied on for.

pub mod digest;
pub mod error;
pub mod file;
pub mod group_laws;
pub mod grouper;
pub mod mode;
pub mod pipeline;
pub mod seq_lemmas;
pub mod tree;
pub mod walker;
