use sfs::disk::{Disk, DiskError};
use sfs::fs::{FileSystem, FsError};
use sfs::inode::InodeType;
use sfs::superblock::{Superblock, SUPERBLOCK_SIGNATURE_SFS, SUPERBLOCK_SIZE};

#[test]
fn new_superblock_counts_the_blocks() {
    let sb = Superblock::new_at("My Filesystem", 300, 1234).unwrap();
    assert_eq!(sb.signature, *b"SFs sblk");
    assert_eq!(sb.signature, SUPERBLOCK_SIGNATURE_SFS);
    assert_eq!(sb.earliest_free, 2);
    assert_eq!(sb.earliest_inode_space, 0);
    assert_eq!(sb.last_free, 299);
    assert_eq!(sb.total_unused, 298);
    assert_eq!(sb.total_blocks, 300);
    assert_eq!(sb.total_used(), 2);
    assert_eq!(sb.last_mount, 1234);
    assert_eq!(sb.last_write, 1234);
    assert_eq!(&sb.name[..13], b"My Filesystem");
    assert!(sb.name[13..].iter().all(|b| *b == 0));
    assert_eq!(sb.file_prealloc, 1);
    assert_eq!(sb.dir_prealloc, 1);
    assert_eq!(sb.root_inode, 0);
    assert!(sb.has_signature());
}

#[test]
fn each_segment_costs_one_block() {
    assert_eq!(Superblock::new_at("", 2, 0).unwrap().total_unused, 0);
    assert_eq!(Superblock::new_at("", 16384, 0).unwrap().total_unused, 16382);
    assert_eq!(Superblock::new_at("", 16385, 0).unwrap().total_unused, 16382);
    assert_eq!(Superblock::new_at("", 32768, 0).unwrap().total_unused, 32765);
    assert_eq!(Superblock::new_at("", u32::MAX, 0).unwrap().total_unused, u32::MAX - 1 - 262144);
    assert_eq!(Superblock::new_at("", u32::MAX, 0).unwrap().total_used(), 262145);
}

#[test]
fn superblock_names_have_at_most_32_bytes() {
    let full = "n".repeat(32);
    let sb = Superblock::new_at(&full, 10, 0).unwrap();
    assert_eq!(sb.get_name(), full);
    assert!(matches!(Superblock::new_at(&"n".repeat(33), 10, 0), Err(FsError::NameTooLong)));
    assert!(matches!(Superblock::new(&"n".repeat(33), 10), Err(FsError::NameTooLong)));
    assert_eq!(Superblock::new_at("", 10, 0).unwrap().get_name(), "");
}

#[test]
fn superblock_made_now_has_one_time() {
    let sb = Superblock::new("clock", 10).unwrap();
    assert_eq!(sb.last_mount, sb.last_write);
    assert_eq!(sb.get_name(), "clock");
    assert_eq!(sb.total_blocks, 10);
}

#[test]
fn get_name_ends_at_the_first_zero_byte() {
    let mut sb = Superblock::new_at("abcdef", 10, 0).unwrap();
    sb.name[3] = 0;
    assert_eq!(sb.get_name(), "abc");
    sb.name[0] = 0xe9;
    assert_eq!(sb.get_name(), "\u{e9}bc");
}

#[test]
fn superblock_is_stored_field_by_field() {
    let mut sb = Superblock::new_at("ab", 0x0102_0304, 0x1122_3344_5566_7788).unwrap();
    sb.earliest_free = 0x0a0b_0c0d;
    sb.earliest_inode_space = 0x40;
    sb.root_inode = 0x5060_7080;
    sb.file_prealloc = 3;
    sb.dir_prealloc = 4;
    let bytes = sb.to_bytes();
    assert_eq!(bytes.len(), SUPERBLOCK_SIZE);
    assert_eq!(bytes.len(), 82);
    assert_eq!(&bytes[0..8], b"SFs sblk");
    assert_eq!(&bytes[8..12], &[0x0d, 0x0c, 0x0b, 0x0a]);
    assert_eq!(&bytes[12..16], &[0x40, 0, 0, 0]);
    assert_eq!(&bytes[16..20], &[0x03, 0x03, 0x02, 0x01]);
    assert_eq!(&bytes[24..28], &[0x04, 0x03, 0x02, 0x01]);
    assert_eq!(&bytes[28..36], &[0x88, 0x77, 0x66, 0x55, 0x44, 0x33, 0x22, 0x11]);
    assert_eq!(&bytes[36..44], &[0x88, 0x77, 0x66, 0x55, 0x44, 0x33, 0x22, 0x11]);
    assert_eq!(&bytes[44..46], b"ab");
    assert!(bytes[46..76].iter().all(|b| *b == 0));
    assert_eq!(bytes[76], 3);
    assert_eq!(bytes[77], 4);
    assert_eq!(&bytes[78..82], &[0x80, 0x70, 0x60, 0x50]);
    let back = Superblock::from_bytes(&bytes);
    assert_eq!(back.to_bytes(), bytes);
    assert_eq!(back.earliest_free, sb.earliest_free);
    assert_eq!(back.total_unused, sb.total_unused);
    assert_eq!(back.last_mount, sb.last_mount);
    assert_eq!(back.name, sb.name);
    assert_eq!(back.root_inode, sb.root_inode);
}

#[test]
fn read_checks_the_signature() {
    let sb = Superblock::new_at("x", 10, 0).unwrap();
    let mut disk = Disk::new_virtual(2);
    disk.write_exact(100, &sb.to_bytes()).unwrap();
    assert_eq!(Superblock::read(&mut disk, 100).unwrap().to_bytes(), sb.to_bytes());
    assert!(matches!(Superblock::read(&mut disk, 101), Err(FsError::InvalidSignature)));
    assert!(matches!(
        Superblock::read(&mut disk, 2 * 4096 - 81),
        Err(FsError::DiskError(DiskError::NotEnoughSpace))
    ));
    let mut other = sb;
    other.signature[7] = b'K';
    assert!(!other.has_signature());
}

#[test]
fn create_refuses_small_devices_and_long_names() {
    for blocks in 0..3 {
        assert!(matches!(
            FileSystem::create(blocks, "fs"),
            Err(FsError::DiskError(DiskError::NotEnoughSpace))
        ));
    }
    assert!(matches!(FileSystem::create(3, "fs"), Err(FsError::NoSpace)));
    assert!(FileSystem::create(4, "fs").is_ok());
    assert!(matches!(FileSystem::create(300, &"n".repeat(33)), Err(FsError::NameTooLong)));
}

#[test]
fn create_lays_out_the_device() {
    let mut fs = FileSystem::create_at(300, "My Filesystem", 99).unwrap();
    assert_eq!(fs.superblock.root_inode, 64);
    assert_eq!(fs.superblock.total_unused, 300 - 3);
    assert_eq!(fs.superblock.total_used(), 3);
    assert_eq!(fs.superblock.earliest_free, 3);
    assert_eq!(fs.superblock.earliest_inode_space, 64);
    assert_eq!(fs.superblock.last_mount, 99);
    let image = fs.get_disk().to_vec().unwrap();
    assert_eq!(image.len(), 300 * 4096);
    assert_eq!(image[0], 0b0000_0111);
    assert_eq!(image[2048], 0b0000_0100);
    assert!(image[1..2048].iter().all(|b| *b == 0));
    assert!(image[2049..4096].iter().all(|b| *b == 0));
    assert_eq!(&image[4096..4096 + 82], &fs.superblock.to_bytes()[..]);
    assert!(image[4096 + 82..8192].iter().all(|b| *b == 0));
    let root = fs.read_inode(64).unwrap();
    assert_eq!(&image[8192..8192 + 128], &root.to_bytes()[..]);
    assert!(image[8192 + 128..].iter().all(|b| *b == 0));
    assert_eq!(root.type_and_permission.get_raw(), 0x41fd);
    assert_eq!(root.type_and_permission.get_type(), InodeType::Directory);
    assert_eq!(root.hardlinks, 1);
    assert_eq!(root.creation_time, 99);
    assert_eq!(root.modification_time, 99);
    assert_eq!((root.uid, root.gid, root.meta), (0, 0, 0));
    assert_eq!(root.block_pointers, [0; 10]);
}

#[test]
fn create_marks_every_descriptor() {
    let mut fs = FileSystem::create(16390, "two segments").unwrap();
    assert_eq!(fs.superblock.total_unused, 16390 - 1 - 2 - 1);
    assert_eq!(fs.get_disk().read_u8(0).unwrap(), 0b0000_0111);
    assert_eq!(fs.get_disk().read_u8(16384 * 4096).unwrap(), 1);
    assert_eq!(fs.get_disk().read_u8(16384 * 4096 + 2048).unwrap(), 0);
}

#[test]
fn a_mounted_filesystem_has_the_superblock_of_the_one_created() {
    for (blocks, name) in [(4u32, ""), (300, "My Filesystem"), (1000, "0123456789abcdef0123456789abcdef")] {
        let mut fs = FileSystem::create(blocks, name).unwrap();
        let image = fs.get_disk().to_vec().unwrap();
        let mounted = FileSystem::from_disk(Disk::new(image)).unwrap();
        assert_eq!(mounted.superblock.get_name(), name);
        assert_eq!(mounted.superblock.name, fs.superblock.name);
        assert_eq!(mounted.superblock.total_blocks, blocks);
        assert_eq!(mounted.superblock.root_inode, fs.superblock.root_inode);
        assert_eq!(mounted.superblock.to_bytes(), fs.superblock.to_bytes());
    }
}

#[test]
fn a_superblock_that_cannot_be_stored_is_an_error() {
    let superblock = Superblock::new_at("small", 10, 0).unwrap();
    let mut fs = FileSystem { superblock, disk: Disk::new(vec![0u8; 4096 + 81]) };
    assert!(matches!(fs.write_superblock(), Err(FsError::FailSuperblockWrite)));
    let mut fs = FileSystem { superblock, disk: Disk::new(vec![0u8; 4096 + 82]) };
    assert!(fs.write_superblock().is_ok());
    assert_eq!(&fs.get_disk().to_vec().unwrap()[4096..], &superblock.to_bytes()[..]);
}
