//! A block-structured file system over a flat, growable, paged byte store.
//!
//! The store is a sequence of bytes that grows page by page. It is carved into
//! blocks of 512 bytes; a bitmap records which blocks are taken. A cluster is
//! an ordered list of blocks that together hold one byte stream, and a
//! directory is a list of entries, each of which names a cluster.

pub mod error;
pub mod block;
pub mod memory;
pub mod heap_memory;
pub mod bitmap;
pub mod serde;
pub mod cluster;
pub mod directory;
pub mod file_system;
pub mod path;
pub mod requests;
