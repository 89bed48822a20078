//! A share engine: publishes filesystem paths under short codes, resolves a
//! code and a sub-path to a target contained in the share's root, and turns
//! that target into a directory listing or a streamable file descriptor.
//!
//! The library reads the clock and a random source and computes over plain
//! values; reading the disk, persisting the code table and speaking HTTP are
//! left to the caller.

pub mod errors;
pub mod paths;
pub mod data;
pub mod db;
pub mod utils;
pub mod fs;
pub mod views;
