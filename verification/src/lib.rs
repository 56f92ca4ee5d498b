//! Inode map of a log-structured file system.
//!
//! A log-structured file system never overwrites a block in place, so the
//! block that holds an inode moves over time. The inode map records where
//! each inode is now. The map itself lives in blocks that move in the same
//! way, so it keeps a small table of where each of its own blocks is.

pub mod bio;
pub mod fs;
pub mod imap;
pub mod layout;
pub mod segment;
