//! Block cache: cached access to the fixed-size blocks of the devices.
//!
//! The cache hands out a [`Buf`] for a block and takes it back again. A
//! buffer is an owned, exclusive copy of the block: what is written into
//! it reaches the cache when the buffer is released. A block that was
//! never written reads as zeros.

use std::collections::HashMap;
use vstd::prelude::*;

verus! {

broadcast use vstd::std_specs::hash::group_hash_axioms;

/// What a block of `bsize` bytes holds before its first write.
pub open spec fn zero_block(bsize: nat) -> Seq<u8> {
    Seq::new(bsize, |i: int| 0u8)
}

/// A scoped buffer over one cached block of `BSIZE` bytes.
///
/// Only [`BlockCache::read`] makes one, so a buffer always knows the block
/// it came from, and [`BlockCache::release`] consumes it, so it is given
/// back at most once.
pub struct Buf<const BSIZE: usize> {
    dev: u32,
    block_no: u32,
    data: [u8; BSIZE],
}

impl<const BSIZE: usize> View for Buf<BSIZE> {
    type V = Seq<u8>;

    /// The bytes the buffer holds now.
    closed spec fn view(&self) -> Seq<u8> {
        self.data@
    }
}

impl<const BSIZE: usize> Buf<BSIZE> {
    /// Device of the block behind this buffer.
    pub closed spec fn dev(&self) -> u32 {
        self.dev
    }

    /// Number of the block behind this buffer.
    pub closed spec fn block_no(&self) -> u32 {
        self.block_no
    }

    /// A buffer always holds one whole block.
    pub proof fn lemma_len(&self)
        ensures
            self@.len() == BSIZE,
    {
    }

    /// The buffer's bytes, for reading.
    pub fn data(&self) -> (d: &[u8; BSIZE])
        ensures
            d@ == self@,
    {
        &self.data
    }

    /// The buffer's bytes, for writing. The buffer stays bound to its block.
    pub fn data_mut(&mut self) -> (d: &mut [u8; BSIZE])
        ensures
            d@ == old(self)@,
            final(self)@ == final(d)@,
            final(self).dev() == old(self).dev(),
            final(self).block_no() == old(self).block_no(),
    {
        &mut self.data
    }
}

/// The cached blocks of all devices, keyed by device and block number.
pub struct BlockCache<const BSIZE: usize> {
    blocks: HashMap<u64, [u8; BSIZE]>,
    held: Ghost<int>,
}

/// Key under which the cache keeps block `block_no` of device `dev`.
spec fn slot(dev: u32, block_no: u32) -> u64 {
    (dev as int * 0x1_0000_0000 + block_no as int) as u64
}

impl<const BSIZE: usize> View for BlockCache<BSIZE> {
    type V = Map<(u32, u32), Seq<u8>>;

    /// The bytes of every block, by `(device, block number)`. The map is
    /// total: every block of every device has contents.
    closed spec fn view(&self) -> Map<(u32, u32), Seq<u8>> {
        Map::total(
            |at: (u32, u32)|
                if self.blocks@.contains_key(slot(at.0, at.1)) {
                    self.blocks@[slot(at.0, at.1)]@
                } else {
                    zero_block(BSIZE as nat)
                },
        )
    }
}

/// Computes the key of a block.
fn slot_key(dev: u32, block_no: u32) -> (key: u64)
    ensures
        key == slot(dev, block_no),
{
    (dev as u64) * 0x1_0000_0000 + (block_no as u64)
}

impl<const BSIZE: usize> BlockCache<BSIZE> {
    /// Number of buffers handed out and not yet released.
    pub closed spec fn held(&self) -> int {
        self.held@
    }

    /// Every block is present and is exactly `BSIZE` bytes long.
    pub proof fn lemma_blocks(&self)
        ensures
            forall|at: (u32, u32)| #[trigger] self@.contains_key(at),
            forall|at: (u32, u32)| (#[trigger] self@[at]).len() == BSIZE,
    {
    }

    /// A cache over blank devices, with no buffer handed out.
    pub fn new() -> (cache: Self)
        ensures
            cache.held() == 0,
            forall|at: (u32, u32)| #[trigger] cache@[at] == zero_block(BSIZE as nat),
    {
        BlockCache { blocks: HashMap::new(), held: Ghost(0) }
    }

    /// Hands out a buffer holding the current contents of block `block_no`
    /// of device `dev`.
    pub fn read(&mut self, dev: u32, block_no: u32) -> (buf: Buf<BSIZE>)
        ensures
            buf.dev() == dev,
            buf.block_no() == block_no,
            buf@ == old(self)@[(dev, block_no)],
            final(self)@ == old(self)@,
            final(self).held() == old(self).held() + 1,
    {
        let key: u64 = slot_key(dev, block_no);
        let data: [u8; BSIZE] = match self.blocks.get(&key) {
            Some(d) => *d,
            None => [0u8; BSIZE],
        };
        proof {
            self.held = Ghost(self.held@ + 1);
            assert(data@ =~= old(self)@[(dev, block_no)]);
        }
        Buf { dev, block_no, data }
    }

    /// Takes a buffer back. The bytes it holds become the contents of its
    /// block; no other block changes.
    pub fn release(&mut self, buf: Buf<BSIZE>)
        ensures
            final(self)@ == old(self)@.insert((buf.dev(), buf.block_no()), buf@),
            final(self).held() == old(self).held() - 1,
    {
        let key: u64 = slot_key(buf.dev, buf.block_no);
        self.blocks.insert(key, buf.data);
        proof {
            self.held = Ghost(self.held@ - 1);
            let want = old(self)@.insert((buf.dev(), buf.block_no()), buf@);
            assert forall|at: (u32, u32)| #[trigger] self@[at] == want[at] by {
                if at != (buf.dev, buf.block_no) {
                    assert(slot(at.0, at.1) != slot(buf.dev, buf.block_no));
                }
            }
            assert(self@ =~= want);
        }
    }
}

} // verus!
