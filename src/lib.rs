//! A read-only reader for ext4 filesystem images: superblock and group table
//! decoding, inode loading, extent-tree walking, and a sparse-aware byte
//! stream over a file's contents.

pub mod codec;
pub mod directory;
pub mod error;
pub mod extents;
pub mod image;
pub mod inode;
pub mod reader;
pub mod superblock;
