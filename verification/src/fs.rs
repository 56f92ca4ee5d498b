//! What an inode-map operation is handed by the file system around it.

use crate::bio::BlockCache;
use vstd::prelude::*;

verus! {

/// The part of the superblock that the inode map consults.
pub struct Superblock {
    /// Total number of inodes; valid inode numbers are `0..ninodes`.
    pub ninodes: u32,
}

/// The block cache and the superblock of one mounted file system, with
/// blocks of `BSIZE` bytes.
pub struct FsCtx<const BSIZE: usize> {
    pub disk: BlockCache<BSIZE>,
    pub superblock: Superblock,
}

impl<const BSIZE: usize> FsCtx<BSIZE> {
    /// Same superblock and same block contents as `before`, and as many
    /// buffers handed out: an operation that ends in this state has left
    /// nothing behind.
    pub open spec fn unchanged_since(&self, before: &Self) -> bool {
        &&& self.superblock == before.superblock
        &&& self.disk@ == before.disk@
        &&& self.disk.held() == before.disk.held()
    }

    /// A context over blank devices for a file system of `ninodes` inodes.
    pub fn new(ninodes: u32) -> (ctx: Self)
        ensures
            ctx.superblock.ninodes == ninodes,
            ctx.disk.held() == 0,
            forall|at: (u32, u32)| #[trigger] ctx.disk@[at] == crate::bio::zero_block(BSIZE as nat),
    {
        FsCtx { disk: BlockCache::new(), superblock: Superblock { ninodes } }
    }
}

} // verus!
