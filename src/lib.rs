//! Finds groups of files with identical content in a directory tree.
//!
//! The library holds the decisions of a scan: which directory entries are
//! walked or hashed, how a file's bytes become a digest, and how finished
//! hashing jobs are grouped by digest. Listing directories, reading files
//! and running jobs concurrently is left to the caller.
use vstd::prelude::*;

pub mod digest;
pub mod aggregate;
pub mod walker;
pub mod render;
