//! ArcFS: a deduplicating, content-addressed filesystem engine.
//!
//! The verified library holds the content-defined chunker, the metadata
//! store that lives in a `sled` database (inodes, directory entries,
//! recipes, snapshots, tags and their inverted index), the TagFS virtual
//! directory registry and the write-back page cache that the FUSE front end
//! drives.
use vstd::prelude::*;

pub mod chunker;
pub mod text;
pub mod codec;
pub mod store;
pub mod hash;
pub mod file_manager;
pub mod recipe;
pub mod tagfs;
pub mod page_cache;
pub mod fs_ops;
pub mod inode_tree;
pub mod fuse_handler;

verus! {

} // verus!
