use lfs_imap::fs::FsCtx;
use lfs_imap::imap::Imap;
use lfs_imap::layout::read_entry;
use lfs_imap::segment::Segment;

/// The entries of one block of four entries, read straight from the cache.
fn entries_at(ctx: &mut FsCtx<16>, dev: u32, block_no: u32) -> Vec<u32> {
    let buf = ctx.disk.read(dev, block_no);
    let found = vec![
        read_entry(buf.data(), 0),
        read_entry(buf.data(), 1),
        read_entry(buf.data(), 2),
        read_entry(buf.data(), 3),
    ];
    ctx.disk.release(buf);
    found
}

/// What `get` gives for the inodes `0..count`.
fn lookups(imap: &Imap<16, 3>, ctx: &mut FsCtx<16>, count: u32) -> Vec<u32> {
    let mut found = Vec::new();
    for inum in 0..count {
        found.push(imap.get(inum, ctx));
    }
    found
}

#[test]
fn single_block_map_is_filled_in_order() {
    let mut ctx = FsCtx::<16>::new(4);
    let mut imap = Imap::<16, 1>::new(0, [5]);
    let mut segment = Segment::new(0, 10, 2);

    assert_eq!(imap.get_empty_inum(&mut ctx), Some(0));

    assert!(imap.set(0, 42, &mut segment, &mut ctx));
    assert_eq!(imap.addr(), &[10]);
    assert_eq!(entries_at(&mut ctx, 0, 10), vec![42, 0, 0, 0]);
    assert_eq!(imap.get(0, &mut ctx), 42);
    assert_eq!(imap.get_empty_inum(&mut ctx), Some(1));

    // The next segment has no slot for the block yet, so the block moves.
    let mut next = Segment::new(0, 20, 2);
    assert!(imap.set(1, 7, &mut next, &mut ctx));
    assert_eq!(imap.addr(), &[20]);
    assert_eq!(entries_at(&mut ctx, 0, 20), vec![42, 7, 0, 0]);
    assert_eq!(imap.get(0, &mut ctx), 42);
    assert_eq!(imap.get(1, &mut ctx), 7);
    assert_eq!(imap.get(2, &mut ctx), 0);
    assert_eq!(imap.get(3, &mut ctx), 0);
    // The version the block had before the move is still where it was.
    assert_eq!(entries_at(&mut ctx, 0, 10), vec![42, 0, 0, 0]);
}

#[test]
fn inode_number_splits_into_block_and_offset() {
    let imap = Imap::<16, 3>::new(0, [1, 2, 3]);
    assert_eq!(imap.get_imap_block_no(0), (0, 0));
    assert_eq!(imap.get_imap_block_no(3), (0, 3));
    assert_eq!(imap.get_imap_block_no(4), (1, 0));
    assert_eq!(imap.get_imap_block_no(5), (1, 1));
    assert_eq!(imap.get_imap_block_no(11), (2, 3));

    let wide = Imap::<1024, 2>::new(0, [1, 2]);
    assert_eq!(wide.get_imap_block_no(255), (0, 255));
    assert_eq!(wide.get_imap_block_no(256), (1, 0));
    assert_eq!(wide.get_imap_block_no(300), (1, 44));
    assert_eq!(wide.get_imap_block_no(u32::MAX), (16_777_215, 255));
}

#[test]
fn block_and_offset_give_the_inode_number_back() {
    let imap = Imap::<16, 3>::new(0, [1, 2, 3]);
    for inum in 0..12u32 {
        let (block, offset) = imap.get_imap_block_no(inum);
        assert!(offset < 4);
        assert_eq!(block * 4 + offset, inum as usize);
    }
    for block in 0..3usize {
        for offset in 0..4usize {
            let inum = (block * 4 + offset) as u32;
            assert_eq!(imap.get_imap_block_no(inum), (block, offset));
        }
    }
}

#[test]
fn get_imap_block_reads_at_the_table_address() {
    let mut ctx = FsCtx::<16>::new(12);
    let mut imap = Imap::<16, 3>::new(7, [1, 2, 3]);
    let mut segment = Segment::new(7, 40, 4);
    assert!(imap.set(6, 99, &mut segment, &mut ctx));
    assert_eq!(imap.addr(), &[1, 40, 3]);

    let buf = imap.get_imap_block(1, &mut ctx);
    assert_eq!(read_entry(buf.data(), 2), 99);
    assert_eq!(read_entry(buf.data(), 0), 0);
    ctx.disk.release(buf);

    let buf = imap.get_imap_block(0, &mut ctx);
    assert_eq!(read_entry(buf.data(), 2), 0);
    ctx.disk.release(buf);

    assert_eq!(entries_at(&mut ctx, 7, 40), vec![0, 0, 99, 0]);
    // The same block number on another device is another block.
    assert_eq!(entries_at(&mut ctx, 0, 40), vec![0, 0, 0, 0]);
}

#[test]
fn get_returns_what_set_recorded_after_a_move() {
    let mut ctx = FsCtx::<16>::new(12);
    let mut imap = Imap::<16, 3>::new(0, [1, 2, 3]);
    let mut segment = Segment::new(0, 100, 8);
    assert!(imap.set(9, 0xdead_beef, &mut segment, &mut ctx));
    assert_eq!(imap.get(9, &mut ctx), 0xdead_beef);
    assert_eq!(imap.addr(), &[1, 2, 100]);
}

#[test]
fn get_returns_what_set_recorded_in_place() {
    let mut ctx = FsCtx::<16>::new(12);
    let mut imap = Imap::<16, 3>::new(0, [1, 2, 3]);
    let mut segment = Segment::new(0, 100, 8);
    assert!(imap.set(9, 11, &mut segment, &mut ctx));
    assert_eq!(imap.addr(), &[1, 2, 100]);
    // The block has its slot now: the next two writes stay in it.
    assert!(imap.set(10, 22, &mut segment, &mut ctx));
    assert_eq!(imap.get(10, &mut ctx), 22);
    assert!(imap.set(9, 33, &mut segment, &mut ctx));
    assert_eq!(imap.get(9, &mut ctx), 33);
    assert_eq!(imap.addr(), &[1, 2, 100]);
    assert_eq!(entries_at(&mut ctx, 0, 100), vec![0, 33, 22, 0]);
}

#[test]
fn set_can_record_zero_again() {
    let mut ctx = FsCtx::<16>::new(4);
    let mut imap = Imap::<16, 1>::new(0, [5]);
    let mut segment = Segment::new(0, 10, 1);
    assert!(imap.set(0, 8, &mut segment, &mut ctx));
    assert_eq!(imap.get_empty_inum(&mut ctx), Some(1));
    assert!(imap.set(0, 0, &mut segment, &mut ctx));
    assert_eq!(imap.get(0, &mut ctx), 0);
    assert_eq!(imap.get_empty_inum(&mut ctx), Some(0));
}

#[test]
fn a_move_keeps_the_other_entries_of_the_block() {
    let mut ctx = FsCtx::<16>::new(12);
    let mut imap = Imap::<16, 3>::new(0, [1, 2, 3]);
    let mut first = Segment::new(0, 100, 8);
    assert!(imap.set(4, 14, &mut first, &mut ctx));
    assert!(imap.set(5, 15, &mut first, &mut ctx));
    assert!(imap.set(6, 16, &mut first, &mut ctx));
    assert!(imap.set(7, 17, &mut first, &mut ctx));
    assert_eq!(entries_at(&mut ctx, 0, 100), vec![14, 15, 16, 17]);

    let mut second = Segment::new(0, 200, 8);
    assert!(imap.set(6, 66, &mut second, &mut ctx));
    assert_eq!(imap.addr(), &[1, 200, 3]);
    assert_eq!(entries_at(&mut ctx, 0, 200), vec![14, 15, 66, 17]);
    assert_eq!(imap.get(4, &mut ctx), 14);
    assert_eq!(imap.get(5, &mut ctx), 15);
    assert_eq!(imap.get(6, &mut ctx), 66);
    assert_eq!(imap.get(7, &mut ctx), 17);
    assert_eq!(entries_at(&mut ctx, 0, 100), vec![14, 15, 16, 17]);
}

#[test]
fn set_changes_the_entry_of_no_other_inode() {
    let mut ctx = FsCtx::<16>::new(12);
    let mut imap = Imap::<16, 3>::new(0, [1, 2, 3]);
    let mut segment = Segment::new(0, 100, 8);
    for inum in 0..12u32 {
        assert!(imap.set(inum, 1000 + inum, &mut segment, &mut ctx));
    }
    assert_eq!(imap.addr(), &[100, 101, 102]);
    let before = lookups(&imap, &mut ctx, 12);
    assert_eq!(before, vec![1000, 1001, 1002, 1003, 1004, 1005, 1006, 1007, 1008, 1009, 1010, 1011]);

    // Once in place, once with a move.
    assert!(imap.set(5, 55, &mut segment, &mut ctx));
    let mut next = Segment::new(0, 300, 8);
    assert!(imap.set(10, 77, &mut next, &mut ctx));
    assert_eq!(imap.addr(), &[100, 101, 300]);

    let after = lookups(&imap, &mut ctx, 12);
    assert_eq!(after, vec![1000, 1001, 1002, 1003, 1004, 55, 1006, 1007, 1008, 1009, 77, 1011]);
}

#[test]
fn scan_of_a_blank_map_finds_inode_zero() {
    let mut ctx = FsCtx::<16>::new(12);
    let imap = Imap::<16, 3>::new(0, [1, 2, 3]);
    assert_eq!(imap.get_empty_inum(&mut ctx), Some(0));
}

#[test]
fn scan_finds_the_smallest_free_inode() {
    let mut ctx = FsCtx::<16>::new(12);
    let mut imap = Imap::<16, 3>::new(0, [1, 2, 3]);
    let mut segment = Segment::new(0, 100, 8);
    for inum in [0u32, 1, 2, 3, 4, 5, 7, 8, 10] {
        assert!(imap.set(inum, 500 + inum, &mut segment, &mut ctx));
    }
    // 6, 9 and 11 are free.
    assert_eq!(imap.get_empty_inum(&mut ctx), Some(6));
    assert!(imap.set(6, 506, &mut segment, &mut ctx));
    assert_eq!(imap.get_empty_inum(&mut ctx), Some(9));
    assert!(imap.set(9, 509, &mut segment, &mut ctx));
    assert_eq!(imap.get_empty_inum(&mut ctx), Some(11));
}

#[test]
fn scan_of_a_full_map_finds_nothing() {
    let mut ctx = FsCtx::<16>::new(12);
    let mut imap = Imap::<16, 3>::new(0, [1, 2, 3]);
    let mut segment = Segment::new(0, 100, 8);
    for inum in 0..12u32 {
        assert!(imap.set(inum, 1 + inum, &mut segment, &mut ctx));
    }
    assert_eq!(imap.get_empty_inum(&mut ctx), None);
    // One entry given up is found again.
    assert!(imap.set(11, 0, &mut segment, &mut ctx));
    assert_eq!(imap.get_empty_inum(&mut ctx), Some(11));
}

#[test]
fn scan_looks_past_the_inode_count() {
    // The scan covers the whole table, whatever the superblock says.
    let mut ctx = FsCtx::<16>::new(2);
    let mut imap = Imap::<16, 1>::new(0, [5]);
    let mut segment = Segment::new(0, 10, 1);
    assert!(imap.set(0, 8, &mut segment, &mut ctx));
    assert!(imap.set(1, 9, &mut segment, &mut ctx));
    assert_eq!(imap.get_empty_inum(&mut ctx), Some(2));
}

#[test]
fn scan_of_a_map_without_blocks_finds_nothing() {
    let mut ctx = FsCtx::<16>::new(0);
    let imap = Imap::<16, 0>::new(0, []);
    assert_eq!(imap.get_empty_inum(&mut ctx), None);
}

#[test]
fn set_fails_on_a_full_segment_and_changes_nothing() {
    let mut ctx = FsCtx::<16>::new(12);
    let mut imap = Imap::<16, 3>::new(0, [1, 2, 3]);
    let mut segment = Segment::new(0, 100, 1);
    assert!(imap.set(0, 10, &mut segment, &mut ctx));
    assert_eq!(imap.addr(), &[100, 2, 3]);

    // Block 1 of the map finds no slot left.
    assert!(!imap.set(4, 44, &mut segment, &mut ctx));
    assert_eq!(imap.addr(), &[100, 2, 3]);
    assert_eq!(imap.get(4, &mut ctx), 0);
    assert_eq!(lookups(&imap, &mut ctx, 12), vec![10, 0, 0, 0, 0, 0, 0, 0, 0, 0, 0, 0]);
    assert_eq!(entries_at(&mut ctx, 0, 2), vec![0, 0, 0, 0]);
    assert_eq!(entries_at(&mut ctx, 0, 101), vec![0, 0, 0, 0]);

    // Block 0 has its slot and can still be written.
    assert!(imap.set(1, 11, &mut segment, &mut ctx));
    assert_eq!(imap.get(1, &mut ctx), 11);

    // With a new segment the write that failed goes through.
    let mut next = Segment::new(0, 200, 1);
    assert!(imap.set(4, 44, &mut next, &mut ctx));
    assert_eq!(imap.get(4, &mut ctx), 44);
    assert_eq!(imap.addr(), &[100, 200, 3]);
}

#[test]
fn set_fails_on_a_segment_without_blocks() {
    let mut ctx = FsCtx::<16>::new(4);
    let mut imap = Imap::<16, 1>::new(0, [5]);
    let mut segment = Segment::new(0, 10, 0);
    assert!(!imap.set(2, 9, &mut segment, &mut ctx));
    assert_eq!(imap.addr(), &[5]);
    assert_eq!(imap.get(2, &mut ctx), 0);
    assert_eq!(entries_at(&mut ctx, 0, 5), vec![0, 0, 0, 0]);
    assert_eq!(entries_at(&mut ctx, 0, 10), vec![0, 0, 0, 0]);
}

#[test]
fn map_is_read_from_the_blocks_it_was_mounted_on() {
    // Write through one map, then mount a second one from its table.
    let mut ctx = FsCtx::<16>::new(8);
    let mut imap = Imap::<16, 2>::new(3, [1, 2]);
    let mut segment = Segment::new(3, 50, 4);
    assert!(imap.set(1, 21, &mut segment, &mut ctx));
    assert!(imap.set(6, 26, &mut segment, &mut ctx));
    let table = *imap.addr();
    assert_eq!(table, [50, 51]);

    let mounted = Imap::<16, 2>::new(3, table);
    assert_eq!(mounted.get(1, &mut ctx), 21);
    assert_eq!(mounted.get(6, &mut ctx), 26);
    assert_eq!(mounted.get(0, &mut ctx), 0);
    assert_eq!(mounted.get_empty_inum(&mut ctx), Some(0));
}

#[test]
fn default_map_has_every_block_at_address_zero() {
    let mut ctx = FsCtx::<16>::new(8);
    let mut imap: Imap<16, 2> = Default::default();
    assert_eq!(imap.addr(), &[0, 0]);
    assert_eq!(imap.get(5, &mut ctx), 0);
    assert_eq!(imap.get_empty_inum(&mut ctx), Some(0));
    let mut segment = Segment::new(0, 9, 2);
    assert!(imap.set(5, 1, &mut segment, &mut ctx));
    assert_eq!(imap.addr(), &[0, 9]);
    assert_eq!(imap.get(5, &mut ctx), 1);
}

#[test]
fn blocks_of_a_kilobyte_hold_256_entries() {
    let mut ctx = FsCtx::<1024>::new(1024);
    let mut imap = Imap::<1024, 4>::new(0, [1, 2, 3, 4]);
    let mut segment = Segment::new(0, 64, 16);
    assert!(imap.set(300, 0x0102_0304, &mut segment, &mut ctx));
    assert!(imap.set(1023, u32::MAX, &mut segment, &mut ctx));
    assert_eq!(imap.addr(), &[1, 64, 3, 65]);
    assert_eq!(imap.get(300, &mut ctx), 0x0102_0304);
    assert_eq!(imap.get(1023, &mut ctx), u32::MAX);
    assert_eq!(imap.get(299, &mut ctx), 0);
    assert_eq!(imap.get_empty_inum(&mut ctx), Some(0));

    // Entry 44 of the block lies at byte offset 176, low byte first.
    let buf = ctx.disk.read(0, 64);
    assert_eq!(&buf.data()[176..180], &[4, 3, 2, 1]);
    assert_eq!(read_entry(buf.data(), 44), 0x0102_0304);
    ctx.disk.release(buf);
}

#[test]
fn a_segment_on_another_device_is_written_but_not_read_back() {
    // The map lives on device 0 and is handed a segment of device 1: the
    // block is written into the segment, the table follows the address,
    // and the lookup on device 0 finds nothing there.
    let mut ctx = FsCtx::<16>::new(4);
    let mut imap = Imap::<16, 1>::new(0, [5]);
    let mut segment = Segment::new(1, 10, 2);
    assert!(imap.set(0, 42, &mut segment, &mut ctx));
    assert_eq!(imap.addr(), &[10]);
    assert_eq!(entries_at(&mut ctx, 1, 10), vec![42, 0, 0, 0]);
    assert_eq!(entries_at(&mut ctx, 0, 10), vec![0, 0, 0, 0]);
    assert_eq!(imap.get(0, &mut ctx), 0);
}

#[test]
fn a_move_copies_from_the_address_in_the_table() {
    // The block starts out at address 5 with entries of its own.
    let mut ctx = FsCtx::<16>::new(4);
    let mut setup = Segment::new(0, 5, 1);
    let mut imap = Imap::<16, 1>::new(0, [0]);
    assert!(imap.set(3, 30, &mut setup, &mut ctx));
    assert!(imap.set(2, 20, &mut setup, &mut ctx));
    assert_eq!(imap.addr(), &[5]);

    // The slot it moves to holds stale bytes, which the copy replaces.
    let mut stale = ctx.disk.read(0, 10);
    *stale.data_mut() = [0xff; 16];
    ctx.disk.release(stale);
    let mut segment = Segment::new(0, 10, 1);
    assert!(imap.set(0, 1, &mut segment, &mut ctx));
    assert_eq!(imap.addr(), &[10]);
    assert_eq!(entries_at(&mut ctx, 0, 10), vec![1, 0, 20, 30]);
    assert_eq!(entries_at(&mut ctx, 0, 5), vec![0, 0, 20, 30]);
}
