//! Byte layout of one on-disk inode-map block.
//!
//! A block is a dense run of 32-bit entries with no header and no free
//! list: entry `k` occupies the four bytes starting at byte offset `4 * k`,
//! least significant byte first, and its place alone says which inode it
//! belongs to. The entry `0` says that the inode has no block yet.

use vstd::prelude::*;

verus! {

/// The 32-bit value stored least-significant-byte first in the four bytes
/// of `bytes` that start at byte offset `at`.
pub open spec fn le_u32(bytes: Seq<u8>, at: int) -> u32 {
    (bytes[at] as int + 0x100 * (bytes[at + 1] as int) + 0x1_0000 * (bytes[at + 2] as int)
        + 0x100_0000 * (bytes[at + 3] as int)) as u32
}

/// Number of whole entries that fit in `bytes`.
pub open spec fn entry_count(bytes: Seq<u8>) -> nat {
    bytes.len() / 4
}

/// The block seen as its dense sequence of entries.
pub open spec fn entries(bytes: Seq<u8>) -> Seq<u32> {
    Seq::new(entry_count(bytes), |k: int| le_u32(bytes, 4 * k))
}

/// `bytes` with the four bytes of entry `k` replaced by the encoding of `v`.
pub open spec fn with_entry(bytes: Seq<u8>, k: int, v: u32) -> Seq<u8> {
    bytes.update(4 * k, (v % 0x100) as u8).update(4 * k + 1, (v / 0x100 % 0x100) as u8).update(
        4 * k + 2,
        (v / 0x1_0000 % 0x100) as u8,
    ).update(4 * k + 3, (v / 0x100_0000) as u8)
}

/// Writing entry `k` changes that entry of the decoded block and no other.
pub proof fn lemma_with_entry(bytes: Seq<u8>, k: int, v: u32)
    requires
        0 <= k < entry_count(bytes),
    ensures
        with_entry(bytes, k, v).len() == bytes.len(),
        entries(with_entry(bytes, k, v)) == entries(bytes).update(k, v),
{
    let after = with_entry(bytes, k, v);
    assert(entry_count(after) == entry_count(bytes));
    assert forall|j: int| 0 <= j < entry_count(bytes) implies #[trigger] entries(after)[j]
        == entries(bytes).update(k, v)[j] by {
        if j == k {
            assert(le_u32(after, 4 * k) == v);
        } else {
            assert(le_u32(after, 4 * j) == le_u32(bytes, 4 * j));
        }
    }
    assert(entries(after) =~= entries(bytes).update(k, v));
}

/// Reads entry `k` of a block.
pub fn read_entry<const BSIZE: usize>(data: &[u8; BSIZE], k: usize) -> (v: u32)
    requires
        k < entry_count(data@),
    ensures
        v == entries(data@)[k as int],
{
    let at: usize = 4 * k;
    let b0: u32 = data[at] as u32;
    let b1: u32 = data[at + 1] as u32;
    let b2: u32 = data[at + 2] as u32;
    let b3: u32 = data[at + 3] as u32;
    b0 + 0x100 * b1 + 0x1_0000 * b2 + 0x100_0000 * b3
}

/// Overwrites entry `k` of a block with `v`, leaving every other entry as
/// it was.
pub fn write_entry<const BSIZE: usize>(data: &mut [u8; BSIZE], k: usize, v: u32)
    requires
        k < entry_count(old(data)@),
    ensures
        final(data)@ == with_entry(old(data)@, k as int, v),
        entries(final(data)@) == entries(old(data)@).update(k as int, v),
{
    let at: usize = 4 * k;
    proof {
        lemma_with_entry(data@, k as int, v);
    }
    data[at] = (v % 0x100) as u8;
    data[at + 1] = (v / 0x100 % 0x100) as u8;
    data[at + 2] = (v / 0x1_0000 % 0x100) as u8;
    data[at + 3] = (v / 0x100_0000) as u8;
}

} // verus!
