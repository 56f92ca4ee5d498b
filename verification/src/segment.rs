//! The active append-only segment, as far as the inode map deals with it.
//!
//! A segment is a run of consecutive disk blocks that is filled from the
//! front and never rewritten once it has left memory. The inode map asks
//! it for a place to write one of its blocks; the segment answers with the
//! place that block already has in this segment, or with the next free
//! one, or with nothing when it is full.

use crate::bio::Buf;
use crate::fs::FsCtx;
use vstd::prelude::*;

verus! {

/// The segment that is being filled.
pub struct Segment {
    dev_no: u32,
    start: u32,
    nblocks: u32,
    imap_blocks: Vec<u32>,
}

impl Segment {
    /// Device the segment lies on.
    pub closed spec fn dev(&self) -> u32 {
        self.dev_no
    }

    /// Disk address of the segment's first block.
    pub closed spec fn start(&self) -> u32 {
        self.start
    }

    /// Number of blocks the segment can take.
    pub closed spec fn capacity(&self) -> nat {
        self.nblocks as nat
    }

    /// The used slots in the order they were given out: `slots()[i]` is the
    /// index of the inode-map block that lives at disk address
    /// `start() + i`.
    pub closed spec fn slots(&self) -> Seq<u32> {
        self.imap_blocks@
    }

    /// The segment starts past the reserved block 0, all of its addresses
    /// are 32-bit block numbers, it holds no more than its capacity, and no
    /// inode-map block has two slots.
    pub open spec fn wf(&self) -> bool {
        &&& 0 < self.start()
        &&& self.start() + self.capacity() <= u32::MAX + 1
        &&& self.slots().len() <= self.capacity()
        &&& self.slots().no_duplicates()
    }

    /// Whether inode-map block `block_no` already has a slot here.
    pub open spec fn holds(&self, block_no: u32) -> bool {
        self.slots().contains(block_no)
    }

    /// Whether a request for inode-map block `block_no` can be served.
    pub open spec fn has_room_for(&self, block_no: u32) -> bool {
        self.holds(block_no) || self.slots().len() < self.capacity()
    }

    /// The slot that inode-map block `block_no` has, or else the one it
    /// would be given next.
    pub open spec fn slot_of(&self, block_no: u32) -> int {
        if self.holds(block_no) {
            self.slots().index_of(block_no)
        } else {
            self.slots().len() as int
        }
    }

    /// Disk address of `slot_of(block_no)`.
    pub open spec fn addr_of(&self, block_no: u32) -> int {
        self.start() + self.slot_of(block_no)
    }

    /// The used slots after a served request for `block_no`.
    pub open spec fn slots_with(&self, block_no: u32) -> Seq<u32> {
        if self.holds(block_no) {
            self.slots()
        } else {
            self.slots().push(block_no)
        }
    }

    /// In a well-formed segment a block's slot is the only place it occurs.
    pub proof fn lemma_slot_unique(&self, block_no: u32, i: int)
        requires
            self.wf(),
            0 <= i < self.slots().len(),
            self.slots()[i] == block_no,
        ensures
            self.holds(block_no),
            self.slot_of(block_no) == i,
    {
        assert(self.slots().contains(block_no));
        let j = self.slots().index_of(block_no);
        assert(0 <= j < self.slots().len() && self.slots()[j] == block_no);
    }

    /// An empty segment of `nblocks` blocks starting at disk address
    /// `start` on device `dev_no`.
    pub fn new(dev_no: u32, start: u32, nblocks: u32) -> (segment: Self)
        requires
            0 < start,
            start + nblocks <= u32::MAX + 1,
        ensures
            segment.wf(),
            segment.dev() == dev_no,
            segment.start() == start,
            segment.capacity() == nblocks,
            segment.slots() == Seq::<u32>::empty(),
    {
        Segment { dev_no, start, nblocks, imap_blocks: Vec::new() }
    }

    /// The slot that holds inode-map block `block_no`, if one does.
    fn find(&self, block_no: u32) -> (found: Option<usize>)
        ensures
            match found {
                Some(i) => i < self.slots().len() && self.slots()[i as int] == block_no,
                None => !self.holds(block_no),
            },
    {
        let mut i: usize = 0;
        while i < self.imap_blocks.len()
            invariant
                i <= self.imap_blocks.len(),
                forall|j: int| 0 <= j < i ==> self.imap_blocks@[j] != block_no,
            decreases self.imap_blocks.len() - i,
        {
            if self.imap_blocks[i] == block_no {
                return Some(i);
            }
            i += 1;
        }
        None
    }

    /// Gives a place to write inode-map block `block_no` in this segment.
    ///
    /// If the block already has a slot here, the answer is a buffer over
    /// that slot and the address `0`: nothing moved. Otherwise, if a slot
    /// is free, the block is given the next one, and the answer is a buffer
    /// over it and its disk address, which is never `0`. Otherwise the
    /// answer is `None` and nothing has changed.
    pub fn get_or_add_imap_block<const BSIZE: usize>(
        &mut self,
        block_no: u32,
        ctx: &mut FsCtx<BSIZE>,
    ) -> (granted: Option<(Buf<BSIZE>, u32)>)
        requires
            old(self).wf(),
        ensures
            final(self).wf(),
            final(self).dev() == old(self).dev(),
            final(self).start() == old(self).start(),
            final(self).capacity() == old(self).capacity(),
            final(ctx).superblock == old(ctx).superblock,
            final(ctx).disk@ == old(ctx).disk@,
            granted is Some <==> old(self).has_room_for(block_no),
            match granted {
                Some((buf, new_addr)) => {
                    &&& final(self).slots() == old(self).slots_with(block_no)
                    &&& final(ctx).disk.held() == old(ctx).disk.held() + 1
                    &&& buf.dev() == old(self).dev()
                    &&& buf.block_no() == old(self).addr_of(block_no)
                    &&& buf@ == old(ctx).disk@[(buf.dev(), buf.block_no())]
                    &&& new_addr == if old(self).holds(block_no) {
                        0
                    } else {
                        buf.block_no()
                    }
                    &&& new_addr != 0 <==> !old(self).holds(block_no)
                },
                None => {
                    &&& final(self).slots() == old(self).slots()
                    &&& final(ctx).disk.held() == old(ctx).disk.held()
                },
            },
    {
        match self.find(block_no) {
            Some(i) => {
                proof {
                    self.lemma_slot_unique(block_no, i as int);
                }
                let at: u32 = self.start + i as u32;
                let buf = ctx.disk.read(self.dev_no, at);
                Some((buf, 0))
            },
            None => {
                if self.imap_blocks.len() < self.nblocks as usize {
                    let at: u32 = self.start + self.imap_blocks.len() as u32;
                    self.imap_blocks.push(block_no);
                    proof {
                        let before = old(self).slots();
                        let after = self.slots();
                        assert(after == before.push(block_no));
                        assert forall|i: int, j: int|
                            0 <= i < after.len() && 0 <= j < after.len() && i != j implies after[i]
                            != after[j] by {
                            if i < before.len() {
                                assert(before.contains(before[i]));
                            }
                            if j < before.len() {
                                assert(before.contains(before[j]));
                            }
                        }
                    }
                    let buf = ctx.disk.read(self.dev_no, at);
                    Some((buf, at))
                } else {
                    None
                }
            },
        }
    }
}

} // verus!
