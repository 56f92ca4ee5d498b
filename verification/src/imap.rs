//! The inode map: where each inode's block is now.
//!
//! The map is a fixed table of `IMAPSIZE` blocks of `BSIZE / 4` entries
//! each; both numbers are fixed when the file system is made. Entry `k` of
//! block `i` belongs to inode `i * (BSIZE / 4) + k` and holds the disk
//! block of that inode, or `0` while the inode has none.
//!
//! The blocks of the map are themselves written copy-on-write: a change to
//! an entry goes into the segment that is being filled, never over the
//! block's last version on disk. So the map keeps in memory the disk
//! address at which each of its blocks is found now, and [`Imap::set`]
//! moves that address together with the block.
//!
//! A change reaches the table in memory and a buffer of the segment, no
//! further. Writing the segment out, and recording the table
//! ([`Imap::addr`]) where a later mount finds it, is left to the file
//! system around the map.

use crate::bio::Buf;
use crate::fs::FsCtx;
use crate::layout::{entries, read_entry, with_entry, write_entry};
use crate::segment::Segment;
use vstd::prelude::*;

verus! {

/// Stores the address of each inode-map block.
pub struct Imap<const BSIZE: usize, const IMAPSIZE: usize> {
    dev_no: u32,
    addr: [u32; IMAPSIZE],
}

impl<const BSIZE: usize, const IMAPSIZE: usize> View for Imap<BSIZE, IMAPSIZE> {
    type V = Seq<u32>;

    /// The address table: `self@[i]` is the disk block that holds block `i`
    /// of the map.
    closed spec fn view(&self) -> Seq<u32> {
        self.addr@
    }
}

impl<const BSIZE: usize, const IMAPSIZE: usize> Default for Imap<BSIZE, IMAPSIZE> {
    /// The map of device 0 with every block of the map at address 0.
    fn default() -> (imap: Self)
        ensures
            imap.dev_no() == 0,
            imap@ == Seq::new(IMAPSIZE as nat, |i: int| 0u32),
    {
        let imap = Self { dev_no: 0, addr: [0u32;IMAPSIZE] };
        assert(imap@ =~= Seq::new(IMAPSIZE as nat, |i: int| 0u32));
        imap
    }
}

impl<const BSIZE: usize, const IMAPSIZE: usize> Imap<BSIZE, IMAPSIZE> {
    /// Device the file system lives on.
    pub closed spec fn dev_no(&self) -> u32 {
        self.dev_no
    }

    /// Number of entries in each block of the map.
    pub open spec fn nentry() -> nat {
        (BSIZE / 4) as nat
    }

    /// Number of inodes the map has room for.
    pub open spec fn capacity() -> nat {
        (IMAPSIZE * Self::nentry()) as nat
    }

    /// A block holds at least one entry, and every inode number the map has
    /// room for is a 32-bit number.
    pub open spec fn geometry_ok() -> bool {
        &&& 0 < Self::nentry()
        &&& Self::capacity() <= u32::MAX + 1
    }

    /// Block of the map that holds the entry of inode `inum`.
    pub open spec fn block_of(inum: int) -> int {
        inum / (Self::nentry() as int)
    }

    /// Place of inode `inum`'s entry within its block.
    pub open spec fn offset_of(inum: int) -> int {
        inum % (Self::nentry() as int)
    }

    /// The entries of block `i` of the map, as found in `disk` at the
    /// address the table gives for it.
    pub open spec fn block(&self, disk: Map<(u32, u32), Seq<u8>>, i: int) -> Seq<u32> {
        entries(disk[(self.dev_no(), self@[i])])
    }

    /// The disk block recorded for inode `inum`; `0` if none is.
    pub open spec fn lookup(&self, disk: Map<(u32, u32), Seq<u8>>, inum: int) -> u32 {
        self.block(disk, Self::block_of(inum))[Self::offset_of(inum)]
    }

    /// The map and the segment agree on block `block` of the map: they are
    /// on one device, and if the block has a slot in the segment, the table
    /// records the block at that slot's address.
    ///
    /// Where this holds, the buffer that the segment hands back for the
    /// block is either a fresh place for it or its current version.
    pub open spec fn agrees_on(&self, segment: &Segment, block: int) -> bool {
        &&& segment.dev() == self.dev_no()
        &&& segment.holds(block as u32) ==> self@[block] == segment.addr_of(block as u32)
    }

    /// The map and the segment agree on every block of the map.
    ///
    /// This holds of any map and an empty segment on its device, and
    /// [`Imap::set`] keeps it.
    pub open spec fn agrees_with(&self, segment: &Segment) -> bool {
        forall|block: int| 0 <= block < IMAPSIZE ==> self.agrees_on(segment, block)
    }

    /// The table points into the segment only at slots of the right block:
    /// a block of the map that is recorded at an address of the segment has
    /// its slot there.
    ///
    /// This holds of any map and an empty segment that lies where no block
    /// of the map is recorded, and [`Imap::set`] keeps it where the two
    /// agree. With it, what is written into the segment for one block of
    /// the map cannot land on another.
    pub open spec fn keeps_to_slots(&self, segment: &Segment) -> bool {
        forall|block: int|
            0 <= block < IMAPSIZE && segment.start() <= #[trigger] self@[block] < segment.start()
                + segment.capacity() ==> segment.holds(block as u32) && self@[block]
                == segment.addr_of(block as u32)
    }

    /// A segment that holds nothing yet agrees with every map on its
    /// device, and if it lies where no block of the map is recorded, the
    /// table keeps to its slots.
    pub proof fn lemma_fresh_segment(&self, segment: &Segment)
        requires
            segment.slots().len() == 0,
            segment.dev() == self.dev_no(),
        ensures
            self.agrees_with(segment),
            (forall|block: int|
                0 <= block < IMAPSIZE ==> !(segment.start() <= #[trigger] self@[block]
                    < segment.start() + segment.capacity())) ==> self.keeps_to_slots(segment),
    {
    }

    /// The table has one address for each block of the map.
    pub proof fn lemma_table_len(&self)
        ensures
            self@.len() == IMAPSIZE,
    {
    }

    /// Splitting an inode number into block and offset loses nothing: the
    /// two parts give the number back, and the offset lies within a block.
    pub proof fn lemma_split_inum(inum: int)
        requires
            0 < Self::nentry(),
            0 <= inum,
        ensures
            Self::block_of(inum) * Self::nentry() + Self::offset_of(inum) == inum,
            0 <= Self::block_of(inum),
            0 <= Self::offset_of(inum) < Self::nentry(),
            inum < Self::capacity() ==> Self::block_of(inum) < IMAPSIZE,
    {
        let n = Self::nentry() as int;
        let size = IMAPSIZE as int;
        assert((inum / n) * n + inum % n == inum && 0 <= inum % n < n && 0 <= inum / n)
            by (nonlinear_arith)
            requires
                0 < n,
                0 <= inum,
        ;
        assert(inum < size * n ==> inum / n < size) by (nonlinear_arith)
            requires
                0 < n,
                0 <= inum,
        ;
    }

    /// The inode at offset `offset` of block `block` splits into exactly
    /// that block and that offset.
    pub proof fn lemma_join_inum(block: int, offset: int)
        requires
            0 <= block,
            0 <= offset < Self::nentry(),
        ensures
            Self::block_of(block * Self::nentry() + offset) == block,
            Self::offset_of(block * Self::nentry() + offset) == offset,
            block < IMAPSIZE ==> block * Self::nentry() + offset < Self::capacity(),
    {
        let n = Self::nentry() as int;
        let size = IMAPSIZE as int;
        assert((block * n + offset) / n == block && (block * n + offset) % n == offset)
            by (nonlinear_arith)
            requires
                0 <= block,
                0 <= offset < n,
        ;
        assert(block < size ==> block * n + offset < size * n) by (nonlinear_arith)
            requires
                0 <= block,
                0 <= offset < n,
        ;
    }

    /// The map of the file system on device `dev_no` whose blocks are found
    /// at the addresses in `addr`.
    pub fn new(dev_no: u32, addr: [u32; IMAPSIZE]) -> (imap: Self)
        ensures
            imap.dev_no() == dev_no,
            imap@ == addr@,
    {
        Self { dev_no, addr }
    }

    /// The address table, as a checkpoint has to record it to find the
    /// blocks of the map again.
    pub fn addr(&self) -> (addr: &[u32; IMAPSIZE])
        ensures
            addr@ == self@,
    {
        &self.addr
    }

    /// For the inode with inode number `inum`, returns where its entry is
    /// stored in the map, as (block of the map, offset within that block).
    pub fn get_imap_block_no(&self, inum: u32) -> (at: (usize, usize))
        requires
            0 < Self::nentry(),
        ensures
            at.0 == Self::block_of(inum as int),
            at.1 == Self::offset_of(inum as int),
            at.0 * Self::nentry() + at.1 == inum,
            at.1 < Self::nentry(),
    {
        proof {
            Self::lemma_split_inum(inum as int);
        }
        let nentry: usize = BSIZE / 4;
        (inum as usize / nentry, inum as usize % nentry)
    }

    /// Hands out a buffer over block `block_no` of the map, read from the
    /// address the table gives for it. The caller releases the buffer.
    pub fn get_imap_block(&self, block_no: usize, ctx: &mut FsCtx<BSIZE>) -> (buf: Buf<BSIZE>)
        requires
            block_no < IMAPSIZE,
        ensures
            buf.dev() == self.dev_no(),
            buf.block_no() == self@[block_no as int],
            buf@ == old(ctx).disk@[(self.dev_no(), self@[block_no as int])],
            entries(buf@) == self.block(old(ctx).disk@, block_no as int),
            final(ctx).superblock == old(ctx).superblock,
            final(ctx).disk@ == old(ctx).disk@,
            final(ctx).disk.held() == old(ctx).disk.held() + 1,
    {
        ctx.disk.read(self.dev_no, self.addr[block_no])
    }

    /// Returns an unused inode number: the smallest one whose entry is `0`,
    /// or `None` if every entry of every block is taken.
    ///
    /// This is a linear scan: it goes through the blocks in order and
    /// through each block from the front, so with no free entry left it
    /// reads all `IMAPSIZE` blocks and looks at all `IMAPSIZE * (BSIZE / 4)`
    /// entries. The map keeps no free list that would spare it that.
    /// Every buffer the scan takes is released before it returns, also
    /// when it returns early with a free number.
    pub fn get_empty_inum(&self, ctx: &mut FsCtx<BSIZE>) -> (free: Option<u32>)
        requires
            Self::geometry_ok(),
        ensures
            final(ctx).unchanged_since(old(ctx)),
            match free {
                Some(inum) => {
                    &&& inum < Self::capacity()
                    &&& self.lookup(old(ctx).disk@, inum as int) == 0
                    &&& forall|m: int| 0 <= m < inum ==> self.lookup(old(ctx).disk@, m) != 0
                },
                None => forall|m: int|
                    0 <= m < Self::capacity() ==> self.lookup(old(ctx).disk@, m) != 0,
            },
    {
        let nentry: usize = BSIZE / 4;
        let ghost disk = ctx.disk@;
        let mut i: usize = 0;
        while i < IMAPSIZE
            invariant
                Self::geometry_ok(),
                nentry == Self::nentry(),
                i <= IMAPSIZE,
                ctx.unchanged_since(old(ctx)),
                disk == old(ctx).disk@,
                forall|b: int, k: int|
                    0 <= b < i && 0 <= k < nentry ==> #[trigger] self.block(disk, b)[k] != 0,
            decreases IMAPSIZE - i,
        {
            let buf = self.get_imap_block(i, ctx);
            let mut j: usize = 0;
            while j < nentry
                invariant
                    Self::geometry_ok(),
                    nentry == Self::nentry(),
                    i < IMAPSIZE,
                    j <= nentry,
                    disk == old(ctx).disk@,
                    ctx.superblock == old(ctx).superblock,
                    ctx.disk@ == disk,
                    ctx.disk.held() == old(ctx).disk.held() + 1,
                    buf.dev() == self.dev_no(),
                    buf.block_no() == self@[i as int],
                    buf@ == disk[(self.dev_no(), self@[i as int])],
                    forall|b: int, k: int|
                        0 <= b < i && 0 <= k < nentry ==> #[trigger] self.block(disk, b)[k] != 0,
                    forall|k: int| 0 <= k < j ==> self.block(disk, i as int)[k] != 0,
                decreases nentry - j,
            {
                proof {
                    buf.lemma_len();
                }
                if read_entry(buf.data(), j) == 0 {
                    proof {
                        ctx.disk.lemma_blocks();
                        Self::lemma_join_inum(i as int, j as int);
                        self.lemma_scanned(disk, i as int, j as int);
                    }
                    ctx.disk.release(buf);
                    assert(ctx.disk@ =~= disk);
                    return Some((i * nentry + j) as u32);
                }
                j += 1;
            }
            proof {
                ctx.disk.lemma_blocks();
            }
            ctx.disk.release(buf);
            assert(ctx.disk@ =~= disk);
            i += 1;
        }
        proof {
            self.lemma_scanned(disk, IMAPSIZE as int, 0);
            assert(IMAPSIZE * Self::nentry() + 0 == Self::capacity());
        }
        None
    }

    /// If the first `blocks` blocks of the map and the first `within`
    /// entries of the next one are all taken, then so is every inode below
    /// `blocks * nentry() + within`.
    proof fn lemma_scanned(&self, disk: Map<(u32, u32), Seq<u8>>, blocks: int, within: int)
        requires
            0 < Self::nentry(),
            0 <= blocks,
            0 <= within <= Self::nentry(),
            forall|b: int, k: int|
                0 <= b < blocks && 0 <= k < Self::nentry() ==> #[trigger] self.block(disk, b)[k]
                    != 0,
            forall|k: int| 0 <= k < within ==> self.block(disk, blocks)[k] != 0,
        ensures
            forall|m: int|
                0 <= m < blocks * Self::nentry() + within ==> self.lookup(disk, m) != 0,
    {
        let n = Self::nentry() as int;
        assert forall|m: int| 0 <= m < blocks * n + within implies self.lookup(disk, m) != 0 by {
            Self::lemma_split_inum(m);
            let b = Self::block_of(m);
            let k = Self::offset_of(m);
            assert(b <= blocks) by (nonlinear_arith)
                requires
                    b * n + k < blocks * n + within,
                    0 <= k < n,
                    0 <= within <= n,
                    0 <= b,
                    0 <= blocks,
            ;
            if b == blocks {
                assert(k < within) by (nonlinear_arith)
                    requires
                        b * n + k < blocks * n + within,
                        b == blocks,
                ;
            } else {
                assert(self.block(disk, b)[k] != 0);
            }
        }
    }

    /// For the inode with inode number `inum`, returns the disk block
    /// recorded for it, which is `0` while none is. Nothing is changed and
    /// no buffer is left behind.
    pub fn get(&self, inum: u32, ctx: &mut FsCtx<BSIZE>) -> (disk_block_no: u32)
        requires
            Self::geometry_ok(),
            inum < old(ctx).superblock.ninodes,
            inum < Self::capacity(),
        ensures
            disk_block_no == self.lookup(old(ctx).disk@, inum as int),
            final(ctx).unchanged_since(old(ctx)),
    {
        proof {
            Self::lemma_split_inum(inum as int);
        }
        let (block_no, offset) = self.get_imap_block_no(inum);
        let buf = self.get_imap_block(block_no, ctx);
        proof {
            buf.lemma_len();
            ctx.disk.lemma_blocks();
        }
        let res = read_entry(buf.data(), offset);
        ctx.disk.release(buf);
        assert(ctx.disk@ =~= old(ctx).disk@);
        res
    }

    /// How the table and the segment stand, in `post` and `after`, once a
    /// place for block `block` of the map has been granted from `before`
    /// and the table of `pre` has followed.
    spec fn placed(
        pre: &Self,
        post: &Self,
        before: &Segment,
        after: &Segment,
        block: int,
    ) -> bool {
        &&& Self::geometry_ok()
        &&& 0 <= block < IMAPSIZE
        &&& before.wf()
        &&& after.wf()
        &&& after.dev() == before.dev()
        &&& after.start() == before.start()
        &&& after.capacity() == before.capacity()
        &&& before.has_room_for(block as u32)
        &&& after.slots() == before.slots_with(block as u32)
        &&& post.dev_no() == pre.dev_no()
        &&& post@ == if before.holds(block as u32) {
            pre@
        } else {
            pre@.update(block, before.addr_of(block as u32) as u32)
        }
    }

    /// Block indices are 32-bit numbers, and each block of the map that the
    /// segment holds after the grant keeps the slot it had, or is the
    /// granted block in the slot it was given.
    proof fn lemma_placed_slots(
        pre: &Self,
        post: &Self,
        before: &Segment,
        after: &Segment,
        block: int,
    )
        requires
            Self::placed(pre, post, before, after, block),
        ensures
            IMAPSIZE <= u32::MAX + 1,
            after.holds(block as u32),
            after.slot_of(block as u32) == before.slot_of(block as u32),
            before.slot_of(block as u32) < before.capacity(),
            forall|other: int|
                0 <= other < IMAPSIZE && other != block ==> {
                    &&& #[trigger] after.holds(other as u32) == before.holds(other as u32)
                    &&& before.holds(other as u32) ==> after.slot_of(other as u32)
                        == before.slot_of(other as u32)
                    &&& before.holds(other as u32) ==> before.slot_of(other as u32)
                        != before.slot_of(block as u32)
                },
    {
        let n = Self::nentry() as int;
        let size = IMAPSIZE as int;
        assert(size <= size * n) by (nonlinear_arith)
            requires
                0 < n,
                0 <= size,
        ;
        let b = block as u32;
        let held = before.slots();
        if before.holds(b) {
            let i = held.index_of(b);
            assert(0 <= i < held.len() && held[i] == b);
        } else {
            assert(after.slots()[held.len() as int] == b);
            after.lemma_slot_unique(b, held.len() as int);
        }
        assert forall|other: int| 0 <= other < IMAPSIZE && other != block implies {
            &&& #[trigger] after.holds(other as u32) == before.holds(other as u32)
            &&& before.holds(other as u32) ==> after.slot_of(other as u32) == before.slot_of(
                other as u32,
            )
            &&& before.holds(other as u32) ==> before.slot_of(other as u32) != before.slot_of(
                block as u32,
            )
        } by {
            let c = other as u32;
            if after.holds(c) {
                let i = after.slots().index_of(c);
                assert(0 <= i < after.slots().len() && after.slots()[i] == c);
                assert(i < held.len());
                assert(held[i] == c);
                before.lemma_slot_unique(c, i);
            }
            if before.holds(c) {
                let i = held.index_of(c);
                assert(0 <= i < held.len() && held[i] == c);
                assert(after.slots()[i] == c);
                after.lemma_slot_unique(c, i);
            }
        }
    }

    /// A grant that the table follows keeps the map and the segment in
    /// agreement.
    proof fn lemma_agreement_kept(
        pre: &Self,
        post: &Self,
        before: &Segment,
        after: &Segment,
        block: int,
    )
        requires
            Self::placed(pre, post, before, after, block),
            pre.agrees_with(before),
        ensures
            post.agrees_with(after),
    {
        Self::lemma_placed_slots(pre, post, before, after, block);
        assert forall|other: int| 0 <= other < IMAPSIZE implies post.agrees_on(after, other) by {
            assert(pre.agrees_on(before, other));
            if other != block {
                assert(after.holds(other as u32) == before.holds(other as u32));
            }
        }
    }

    /// Where the map and the segment agree and the table keeps to the
    /// segment's slots, a grant that the table follows leaves it so, and
    /// the granted place is one at which no other block of the map is
    /// recorded.
    proof fn lemma_slots_kept(
        pre: &Self,
        post: &Self,
        before: &Segment,
        after: &Segment,
        block: int,
    )
        requires
            Self::placed(pre, post, before, after, block),
            pre.agrees_with(before),
            pre.keeps_to_slots(before),
        ensures
            post.keeps_to_slots(after),
            forall|other: int|
                0 <= other < IMAPSIZE && other != block ==> #[trigger] post@[other] == pre@[other]
                    && pre@[other] != before.addr_of(block as u32),
    {
        Self::lemma_placed_slots(pre, post, before, after, block);
        Self::lemma_agreement_kept(pre, post, before, after, block);
        assert forall|other: int| 0 <= other < IMAPSIZE && other != block implies #[trigger] post@[
            other
        ] == pre@[other] && pre@[other] != before.addr_of(block as u32) by {
            assert(pre.agrees_on(before, other));
            assert(after.holds(other as u32) == before.holds(other as u32));
        }
        assert forall|other: int|
            0 <= other < IMAPSIZE && after.start() <= #[trigger] post@[other] < after.start()
                + after.capacity() implies after.holds(other as u32) && post@[other]
            == after.addr_of(other as u32) by {
            assert(post.agrees_on(after, other));
            if other != block {
                assert(post@[other] == pre@[other]);
                assert(after.holds(other as u32) == before.holds(other as u32));
            }
        }
    }

    /// For the inode with inode number `inum`, records `disk_block_no` as its
    /// disk block, writing the changed block of the map into `segment`.
    /// Returns `true` if the segment had a place for the block, and `false`
    /// otherwise; then nothing at all has changed.
    ///
    /// The segment says where the block is written. If the block already
    /// has a slot in the segment, that slot is updated as it stands and the
    /// table stays as it is. Otherwise the block moves: its contents at the
    /// table's address are copied into the new slot, and the table is
    /// pointed at the new slot. Either way exactly one entry of the written
    /// block then changes, the one of `inum`. Every buffer taken on the way
    /// is released.
    ///
    /// The map does no locking of its own. The exclusive borrows make the
    /// caller hold the map, the segment and the cache to itself for the
    /// length of the call; a file system that shares them keeps them
    /// behind its write lock.
    pub fn set(
        &mut self,
        inum: u32,
        disk_block_no: u32,
        segment: &mut Segment,
        ctx: &mut FsCtx<BSIZE>,
    ) -> (ok: bool)
        requires
            Self::geometry_ok(),
            inum < old(ctx).superblock.ninodes,
            inum < Self::capacity(),
            old(segment).wf(),
        ensures
            final(self).dev_no() == old(self).dev_no(),
            final(segment).wf(),
            final(segment).dev() == old(segment).dev(),
            final(segment).start() == old(segment).start(),
            final(segment).capacity() == old(segment).capacity(),
            final(ctx).superblock == old(ctx).superblock,
            final(ctx).disk.held() == old(ctx).disk.held(),
            ok <==> old(segment).has_room_for(Self::block_of(inum as int) as u32),
            !ok ==> {
                &&& final(self)@ == old(self)@
                &&& final(segment).slots() == old(segment).slots()
                &&& final(ctx).disk@ == old(ctx).disk@
            },
            ok ==> ({
                let block = Self::block_of(inum as int);
                let moved = !old(segment).holds(block as u32);
                let to = (old(segment).dev(), old(segment).addr_of(block as u32) as u32);
                let from = if moved {
                    (old(self).dev_no(), old(self)@[block])
                } else {
                    to
                };
                &&& final(segment).slots() == old(segment).slots_with(block as u32)
                &&& final(self)@ == if moved {
                    old(self)@.update(block, to.1)
                } else {
                    old(self)@
                }
                &&& final(ctx).disk@ == old(ctx).disk@.insert(
                    to,
                    with_entry(old(ctx).disk@[from], Self::offset_of(inum as int), disk_block_no),
                )
            }),
            ok && old(self).agrees_on(old(segment), Self::block_of(inum as int)) ==> {
                &&& final(self).block(final(ctx).disk@, Self::block_of(inum as int)) == old(
                    self,
                ).block(old(ctx).disk@, Self::block_of(inum as int)).update(
                    Self::offset_of(inum as int),
                    disk_block_no,
                )
                &&& final(self).lookup(final(ctx).disk@, inum as int) == disk_block_no
            },
            old(self).agrees_with(old(segment)) ==> final(self).agrees_with(final(segment)),
            old(self).agrees_with(old(segment)) && old(self).keeps_to_slots(old(segment)) ==> {
                &&& final(self).keeps_to_slots(final(segment))
                &&& forall|other: int|
                    0 <= other < Self::capacity() && other != inum ==> final(self).lookup(
                        final(ctx).disk@,
                        other,
                    ) == old(self).lookup(old(ctx).disk@, other)
            },
    {
        proof {
            Self::lemma_split_inum(inum as int);
            ctx.disk.lemma_blocks();
        }
        let (block_no, offset) = self.get_imap_block_no(inum);
        match segment.get_or_add_imap_block(block_no as u32, ctx) {
            Some((mut buf, new_addr)) => {
                if new_addr != 0 {
                    // Copy the block's content from where the table says it is.
                    let old_buf = self.get_imap_block(block_no, ctx);
                    *buf.data_mut() = *old_buf.data();
                    // Point the table at the block's new place.
                    self.addr[block_no] = new_addr;
                    ctx.disk.release(old_buf);
                    assert(ctx.disk@ =~= old(ctx).disk@);
                }
                proof {
                    buf.lemma_len();
                    crate::layout::lemma_with_entry(buf@, offset as int, disk_block_no);
                }
                write_entry(buf.data_mut(), offset, disk_block_no);
                ctx.disk.release(buf);
                proof {
                    let block = block_no as int;
                    if old(self).agrees_with(old(segment)) {
                        Self::lemma_agreement_kept(
                            &*old(self),
                            &*self,
                            &*old(segment),
                            &*segment,
                            block,
                        );
                        if old(self).keeps_to_slots(old(segment)) {
                            Self::lemma_slots_kept(
                                &*old(self),
                                &*self,
                                &*old(segment),
                                &*segment,
                                block,
                            );
                            assert(old(self).agrees_on(old(segment), block));
                            assert forall|other: int|
                                0 <= other < Self::capacity() && other != inum implies self.lookup(
                                ctx.disk@,
                                other,
                            ) == old(self).lookup(old(ctx).disk@, other) by {
                                Self::lemma_split_inum(other);
                                let theirs = Self::block_of(other);
                                if theirs != block {
                                    assert(self@[theirs] == old(self)@[theirs]);
                                }
                            }
                        }
                    }
                }
                true
            },
            None => {
                proof {
                    if old(self).agrees_with(old(segment)) {
                        assert forall|block: int| 0 <= block < IMAPSIZE implies self.agrees_on(
                            &*segment,
                            block,
                        ) by {
                            assert(old(self).agrees_on(old(segment), block));
                        }
                    }
                }
                false
            },
        }
    }
}

} // verus!
