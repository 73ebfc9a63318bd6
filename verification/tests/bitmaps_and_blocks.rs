use sfs::disk::{Disk, DiskError};
use sfs::fs::{BlockArrayDescriptor, BlockArrayEntry, FileSystem, FsError};

#[test]
fn what_was_recorded_for_a_block_is_read() {
    let mut disk = Disk::new_virtual(2);
    let kinds = [BlockArrayEntry::Unused, BlockArrayEntry::Allocated, BlockArrayEntry::InodeBlock];
    for index in [1u32, 7, 8, 9, 4095, 16383] {
        for kind in kinds {
            let mut d = BlockArrayDescriptor::from_disk(&mut disk, 0);
            d.set(index, kind).unwrap();
            assert_eq!(d.get(index).unwrap(), kind);
        }
    }
    let mut d = BlockArrayDescriptor::from_disk(&mut disk, 0);
    d.set(5, BlockArrayEntry::InodeBlock).unwrap();
    d.set(5, BlockArrayEntry::Unused).unwrap();
    d.set(5, BlockArrayEntry::Unused).unwrap();
    assert_eq!(d.get(5).unwrap(), BlockArrayEntry::Unused);
}

#[test]
fn the_first_block_of_a_segment_is_always_its_descriptor() {
    let mut disk = Disk::new_virtual(1);
    let mut d = BlockArrayDescriptor::from_disk(&mut disk, 0);
    assert_eq!(d.get(0).unwrap(), BlockArrayEntry::BlockArrayDescriptor);
    for kind in [
        BlockArrayEntry::Unused,
        BlockArrayEntry::Allocated,
        BlockArrayEntry::InodeBlock,
        BlockArrayEntry::BlockArrayDescriptor,
    ] {
        d.set(0, kind).unwrap();
        assert_eq!(d.get(0).unwrap(), BlockArrayEntry::BlockArrayDescriptor);
    }
    assert_eq!(disk.read_u8(0).unwrap(), 1);
    assert_eq!(disk.read_u8(2048).unwrap(), 0);
}

#[test]
fn no_other_block_is_recorded_as_a_descriptor() {
    let mut disk = Disk::new_virtual(1);
    let mut d = BlockArrayDescriptor::from_disk(&mut disk, 0);
    d.set(3, BlockArrayEntry::BlockArrayDescriptor).unwrap();
    assert_eq!(d.get(3).unwrap(), BlockArrayEntry::Allocated);
}

#[test]
fn the_bitmaps_hold_one_bit_for_each_block() {
    let mut disk = Disk::new_virtual(1);
    let mut d = BlockArrayDescriptor::from_disk(&mut disk, 0);
    d.set(10, BlockArrayEntry::InodeBlock).unwrap();
    d.set(11, BlockArrayEntry::Allocated).unwrap();
    d.set(15, BlockArrayEntry::InodeBlock).unwrap();
    assert_eq!(d.get(9).unwrap(), BlockArrayEntry::Unused);
    assert_eq!(d.get(12).unwrap(), BlockArrayEntry::Unused);
    assert_eq!(disk.read_u8(1).unwrap(), 0b1000_1100);
    assert_eq!(disk.read_u8(2048 + 1).unwrap(), 0b1000_0100);
    let mut d = BlockArrayDescriptor::from_disk(&mut disk, 0);
    d.set(10, BlockArrayEntry::Allocated).unwrap();
    d.set(15, BlockArrayEntry::Unused).unwrap();
    assert_eq!(disk.read_u8(1).unwrap(), 0b0000_1100);
    assert_eq!(disk.read_u8(2048 + 1).unwrap(), 0);
}

#[test]
fn an_index_outside_the_segment_is_ignored() {
    let mut disk = Disk::new_virtual(1);
    let mut d = BlockArrayDescriptor::from_disk(&mut disk, 0);
    d.set(16384, BlockArrayEntry::Allocated).unwrap();
    d.set(u32::MAX, BlockArrayEntry::InodeBlock).unwrap();
    assert!(disk.to_vec().unwrap().iter().all(|b| *b == 0));
}

#[test]
fn a_descriptor_lies_in_the_first_block_of_its_segment() {
    let mut disk = Disk::new_virtual(16385);
    {
        let mut d = BlockArrayDescriptor::create(&mut disk, 1).unwrap();
        d.set(9, BlockArrayEntry::InodeBlock).unwrap();
        assert_eq!(d.get(9).unwrap(), BlockArrayEntry::InodeBlock);
    }
    let base = 16384u64 * 4096;
    assert_eq!(disk.read_u8(base).unwrap(), 1);
    assert_eq!(disk.read_u8(base + 1).unwrap(), 2);
    assert_eq!(disk.read_u8(base + 2048 + 1).unwrap(), 2);
    assert_eq!(disk.read_u8(0).unwrap(), 0);
    assert!(matches!(
        BlockArrayDescriptor::create(&mut disk, 2),
        Err(DiskError::NotEnoughSpace)
    ));
    let mut d = BlockArrayDescriptor::from_disk(&mut disk, 2);
    assert!(matches!(d.get(1), Err(DiskError::NotEnoughSpace)));
    assert!(matches!(d.set(1, BlockArrayEntry::Allocated), Err(DiskError::NotEnoughSpace)));
}

#[test]
fn pointer_is_the_address_of_a_block() {
    assert_eq!(FileSystem::<Vec<u8>>::pointer(1).unwrap(), 4096);
    assert_eq!(FileSystem::<Vec<u8>>::pointer(300).unwrap(), 300 * 4096);
    assert_eq!(FileSystem::<Vec<u8>>::pointer(u32::MAX).unwrap(), u32::MAX as u64 * 4096);
    assert!(matches!(FileSystem::<Vec<u8>>::pointer(0), Err(FsError::InvalidBlock)));
    assert!(matches!(FileSystem::<Vec<u8>>::pointer(16384), Err(FsError::InvalidBlock)));
    assert!(matches!(FileSystem::<Vec<u8>>::pointer(32768), Err(FsError::InvalidBlock)));
}

#[test]
fn allocations_give_increasing_blocks() {
    let mut fs = FileSystem::create(300, "fs").unwrap();
    let mut last = fs.superblock.root_inode / 32;
    for _ in 0..100 {
        let block = fs.allocate_block(false).unwrap();
        assert!(block > last);
        assert_eq!(fs.superblock.earliest_free, block + 1);
        last = block;
    }
    assert_eq!(last, 102);
}

#[test]
fn allocations_pass_over_the_descriptors() {
    let mut fs = FileSystem::create(16400, "fs").unwrap();
    let mut last = 2;
    for _ in 0..16395 {
        let block = fs.allocate_block(false).unwrap();
        assert!(block > last);
        assert_ne!(block % 16384, 0);
        last = block;
    }
    assert_eq!(last, 16398);
    assert_eq!(fs.superblock.earliest_free, 16399);
    assert!(matches!(fs.allocate_block(false), Err(FsError::NoSpace)));
    assert_eq!(fs.superblock.earliest_free, 0);
    assert!(matches!(fs.allocate_block(false), Err(FsError::NoSpace)));
}

#[test]
fn an_allocated_block_is_recorded_and_zeroed() {
    let mut fs = FileSystem::create(300, "fs").unwrap();
    fs.get_disk().write_exact(3 * 4096, &[0xee; 4096]).unwrap();
    assert_eq!(fs.allocate_block(false).unwrap(), 3);
    assert_eq!(fs.get_disk().read_bytes(3 * 4096, 4096).unwrap(), vec![0u8; 4096]);
    assert_eq!(fs.allocate_block(true).unwrap(), 4);
    assert_eq!(fs.superblock.earliest_inode_space, 4 * 32);
    let mut d = BlockArrayDescriptor::from_disk(fs.get_disk(), 0);
    assert_eq!(d.get(1).unwrap(), BlockArrayEntry::Allocated);
    assert_eq!(d.get(2).unwrap(), BlockArrayEntry::InodeBlock);
    assert_eq!(d.get(3).unwrap(), BlockArrayEntry::Allocated);
    assert_eq!(d.get(4).unwrap(), BlockArrayEntry::InodeBlock);
    assert_eq!(d.get(5).unwrap(), BlockArrayEntry::Unused);
}

#[test]
fn a_freed_block_is_zeroed_and_allocated_again() {
    let mut fs = FileSystem::create(300, "fs").unwrap();
    let a = fs.allocate_block(false).unwrap();
    let b = fs.allocate_block(false).unwrap();
    let c = fs.allocate_block(false).unwrap();
    assert_eq!((a, b, c), (3, 4, 5));
    fs.get_disk().write_exact(4 * 4096, &[0x77; 4096]).unwrap();
    fs.free_block(b).unwrap();
    assert_eq!(fs.superblock.earliest_free, 4);
    assert_eq!(fs.get_disk().read_bytes(4 * 4096, 4096).unwrap(), vec![0u8; 4096]);
    let mut d = BlockArrayDescriptor::from_disk(fs.get_disk(), 0);
    assert_eq!(d.get(4).unwrap(), BlockArrayEntry::Unused);
    assert_eq!(d.get(3).unwrap(), BlockArrayEntry::Allocated);
    assert_eq!(d.get(5).unwrap(), BlockArrayEntry::Allocated);
    fs.get_disk().write_exact(4 * 4096, &[0x55; 4096]).unwrap();
    assert_eq!(fs.allocate_block(false).unwrap(), 4);
    assert_eq!(fs.get_disk().read_bytes(4 * 4096, 4096).unwrap(), vec![0u8; 4096]);
    assert_eq!(fs.superblock.earliest_free, 6);
}

#[test]
fn freeing_above_the_earliest_free_block_leaves_the_hint() {
    let mut fs = FileSystem::create(300, "fs").unwrap();
    for _ in 0..5 {
        fs.allocate_block(false).unwrap();
    }
    fs.free_block(4).unwrap();
    fs.free_block(6).unwrap();
    assert_eq!(fs.superblock.earliest_free, 4);
    assert_eq!(fs.allocate_block(false).unwrap(), 4);
    assert_eq!(fs.allocate_block(false).unwrap(), 6);
    assert_eq!(fs.allocate_block(false).unwrap(), 8);
}

fn unused_in_bitmaps(fs: &mut FileSystem<Vec<u8>>) -> u32 {
    let total = fs.superblock.total_blocks;
    let mut count = 0;
    for block in 0..total {
        let mut d = BlockArrayDescriptor::from_disk(fs.get_disk(), block / 16384);
        if d.get(block % 16384).unwrap() == BlockArrayEntry::Unused {
            count += 1;
        }
    }
    count
}

#[test]
fn total_unused_counts_the_unused_blocks() {
    let mut fs = FileSystem::create(300, "fs").unwrap();
    assert_eq!(fs.superblock.total_unused, 297);
    assert_eq!(unused_in_bitmaps(&mut fs), 297);
    let a = fs.allocate_block(false).unwrap();
    let b = fs.allocate_block(true).unwrap();
    assert_eq!(fs.superblock.total_unused, 295);
    assert_eq!(unused_in_bitmaps(&mut fs), 295);
    fs.free_block(a).unwrap();
    assert_eq!(fs.superblock.total_unused, 296);
    fs.free_block(a).unwrap();
    assert_eq!(fs.superblock.total_unused, 296);
    fs.free_block(250).unwrap();
    assert_eq!(fs.superblock.total_unused, 296);
    fs.free_block(b).unwrap();
    assert_eq!(fs.superblock.total_unused, 297);
    assert_eq!(unused_in_bitmaps(&mut fs), 297);
    assert_eq!(fs.superblock.total_used(), 3);
    let mounted = FileSystem::from_disk(Disk::new(fs.get_disk().to_vec().unwrap())).unwrap();
    assert_eq!(mounted.superblock.total_unused, 297);
    assert_eq!(mounted.superblock.earliest_free, 3);
}

#[test]
fn descriptors_cannot_be_freed() {
    let mut fs = FileSystem::create(16400, "fs").unwrap();
    let before = fs.get_disk().to_vec().unwrap();
    assert!(matches!(fs.free_block(0), Err(FsError::InvalidBlock)));
    assert!(matches!(fs.free_block(16384), Err(FsError::InvalidBlock)));
    assert_eq!(fs.superblock.earliest_free, 3);
    assert_eq!(fs.get_disk().to_vec().unwrap(), before);
}

#[test]
fn the_last_free_block_is_never_handed_out() {
    let mut fs = FileSystem::create(5, "fs").unwrap();
    assert_eq!(fs.superblock.earliest_free, 3);
    assert_eq!(fs.allocate_block(false).unwrap(), 3);
    assert_eq!(fs.superblock.earliest_free, 4);
    assert_eq!(fs.superblock.last_free, 4);
    assert!(matches!(fs.allocate_block(false), Err(FsError::NoSpace)));
    assert_eq!(fs.superblock.earliest_free, 0);
    assert_eq!(fs.superblock.last_free, 0);
    let stored = FileSystem::from_disk(Disk::new(fs.get_disk().to_vec().unwrap())).unwrap();
    assert_eq!(stored.superblock.earliest_free, 0);
}

#[test]
fn without_an_earliest_free_block_nothing_is_allocated() {
    let mut fs = FileSystem::create(300, "fs").unwrap();
    fs.superblock.earliest_free = 0;
    let before = fs.get_disk().to_vec().unwrap();
    let unused = fs.superblock.total_unused;
    assert!(matches!(fs.allocate_block(false), Err(FsError::NoSpace)));
    assert!(matches!(fs.allocate_block(true), Err(FsError::NoSpace)));
    assert_eq!(fs.get_disk().to_vec().unwrap(), before);
    assert_eq!(fs.superblock.total_unused, unused);
    assert_eq!(fs.superblock.earliest_free, 0);
}

#[test]
fn an_allocation_needs_two_unused_blocks() {
    let mut fs = FileSystem::create(6, "fs").unwrap();
    assert_eq!(fs.superblock.total_unused, 3);
    assert_eq!(fs.allocate_block(false).unwrap(), 3);
    assert_eq!(fs.superblock.total_unused, 2);
    assert_eq!(fs.allocate_block(false).unwrap(), 4);
    assert_eq!(fs.superblock.total_unused, 1);
    assert!(matches!(fs.allocate_block(false), Err(FsError::NoSpace)));
}
