//! Content-addressed index of filesystem subtrees, with duplicate resolution.
//!
//! The library holds the index and decides; the caller touches the disk. Every
//! function that needs something from the filesystem takes it as a plain value,
//! and every function that changes the filesystem says which paths to change.
pub mod order;
pub mod path;
pub mod hash;
pub mod sorted;
pub mod item;
pub mod index;
pub mod resolve;
pub mod hasher;
pub mod walk;
pub mod tree;
pub mod mapper;
pub mod closer;
pub mod shell;
pub mod policy;
pub mod listing;
