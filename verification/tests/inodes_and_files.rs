use sfs::disk::DiskError;
use sfs::fs::{BlockArrayDescriptor, BlockArrayEntry, FileSystem, FsError};
use sfs::inode::{read_entire_inode, Inode, InodeType, Permission, PermissionsAndType, MAX_BLOCKS};

fn file_inode() -> Inode {
    Inode::create(
        PermissionsAndType::new(
            InodeType::File,
            &[Permission::user_rw(), Permission::group_rw(), Permission::OtherRead],
        ),
        0,
        0,
        0,
        0,
        0,
    )
}

fn new_file(fs: &mut FileSystem<Vec<u8>>, name: &str) -> (u32, Inode) {
    let root = fs.superblock.root_inode;
    let nbr = fs.create_dir_entry(root, file_inode(), name.to_string()).unwrap();
    let inode = fs.read_inode(nbr).unwrap();
    (nbr, inode)
}

fn pattern(len: usize, seed: u32) -> Vec<u8> {
    (0..len as u32).map(|i| (i.wrapping_mul(31).wrapping_add(seed) % 253) as u8).collect()
}

fn entry(fs: &mut FileSystem<Vec<u8>>, block: u32) -> BlockArrayEntry {
    BlockArrayDescriptor::from_disk(fs.get_disk(), block / 16384).get(block % 16384).unwrap()
}

#[test]
fn types_have_their_codes() {
    assert_eq!(InodeType::FiFo.as_u16(), 0x1000);
    assert_eq!(InodeType::CharacterDevice.as_u16(), 0x2000);
    assert_eq!(InodeType::Directory.as_u16(), 0x4000);
    assert_eq!(InodeType::BlockDevice.as_u16(), 0x6000);
    assert_eq!(InodeType::File.as_u16(), 0x8000);
    assert_eq!(InodeType::Socket.as_u16(), 0xa000);
    assert_eq!(InodeType::Unknown(0x3000).as_u16(), 0x3000);
    for (code, typ) in [
        (0x1000u16, InodeType::FiFo),
        (0x2000, InodeType::CharacterDevice),
        (0x4000, InodeType::Directory),
        (0x6000, InodeType::BlockDevice),
        (0x8000, InodeType::File),
        (0xa000, InodeType::Socket),
        (0x0000, InodeType::Unknown(0)),
        (0x3000, InodeType::Unknown(0x3000)),
        (0xf000, InodeType::Unknown(0xf000)),
    ] {
        assert_eq!(PermissionsAndType(code | 0x0fff).get_type(), typ);
        assert_eq!(PermissionsAndType(code).get_type(), typ);
    }
}

#[test]
fn permissions_have_their_bits() {
    assert_eq!(Permission::OtherExecute.as_u16(), 0o0001);
    assert_eq!(Permission::OtherWrite.as_u16(), 0o0002);
    assert_eq!(Permission::OtherRead.as_u16(), 0o0004);
    assert_eq!(Permission::GroupExecute.as_u16(), 0o0010);
    assert_eq!(Permission::GroupWrite.as_u16(), 0o0020);
    assert_eq!(Permission::GroupRead.as_u16(), 0o0040);
    assert_eq!(Permission::UserExecute.as_u16(), 0o0100);
    assert_eq!(Permission::UserWrite.as_u16(), 0o0200);
    assert_eq!(Permission::UserRead.as_u16(), 0o0400);
    assert_eq!(Permission::Sticky.as_u16(), 0o1000);
    assert_eq!(Permission::SetGid.as_u16(), 0o2000);
    assert_eq!(Permission::SetUid.as_u16(), 0o4000);
    assert_eq!(Permission::Other(0o1234).as_u16(), 0o1234);
    assert_eq!(Permission::other_all().as_u16(), 0o0007);
    assert_eq!(Permission::user_all().as_u16(), 0o0700);
    assert_eq!(Permission::group_all().as_u16(), 0o0070);
    assert_eq!(Permission::user_rw().as_u16(), 0o0600);
    assert_eq!(Permission::group_rw().as_u16(), 0o0060);
}

#[test]
fn type_and_permissions_share_one_field() {
    assert_eq!(PermissionsAndType::new(InodeType::File, &[]).get_raw(), 0x8000);
    assert_eq!(file_inode().type_and_permission.get_raw(), 0x8000 | 0o664);
    let dir = PermissionsAndType::new(
        InodeType::Directory,
        &[
            Permission::group_all(),
            Permission::user_all(),
            Permission::OtherRead,
            Permission::OtherExecute,
        ],
    );
    assert_eq!(dir.get_raw(), 0x41fd);
    assert_eq!(dir.get_type(), InodeType::Directory);
    assert!(dir.get_permission(Permission::UserWrite));
    assert!(dir.get_permission(Permission::OtherRead));
    assert!(!dir.get_permission(Permission::OtherWrite));
    assert!(!dir.get_permission(Permission::SetUid));
    assert!(dir.get_permission(Permission::other_all()));
    assert!(!dir.get_permission(Permission::Other(0)));
}

#[test]
fn set_permission_sets_and_clears() {
    let mut pt = PermissionsAndType::new(InodeType::Socket, &[Permission::UserRead]);
    pt.set_permission(Permission::OtherWrite, true);
    assert_eq!(pt.get_raw(), 0xa000 | 0o402);
    assert!(pt.get_permission(Permission::OtherWrite));
    pt.set_permission(Permission::UserRead, false);
    assert_eq!(pt.get_raw(), 0xa000 | 0o002);
    assert!(!pt.get_permission(Permission::UserRead));
    pt.set_permission(Permission::user_all(), true);
    pt.set_permission(Permission::user_rw(), false);
    assert_eq!(pt.get_raw(), 0xa000 | 0o102);
    assert_eq!(pt.get_type(), InodeType::Socket);
}

#[test]
fn a_new_inode_refers_to_no_block() {
    let inode = Inode::create(PermissionsAndType(0x81a4), 7, 8, 1000, 3, 55);
    assert_eq!(inode.type_and_permission.get_raw(), 0x81a4);
    assert_eq!((inode.uid, inode.gid), (7, 8));
    assert_eq!((inode.modification_time, inode.creation_time), (1000, 1000));
    assert_eq!(inode.hardlinks, 3);
    assert_eq!(inode.meta, 55);
    assert_eq!(inode.block_pointers, [0; 10]);
    assert_eq!(inode.singly_indirect_block_pointer, 0);
    assert_eq!(inode.doubly_indirect_block_pointer, 0);
}

#[test]
fn inode_is_stored_field_by_field() {
    let mut inode = Inode::create(PermissionsAndType(0x81a4), 0x0102, 0x0304, 0, 0x0506, 0x0708_090a);
    inode.modification_time = 0x1112_1314_1516_1718;
    inode.creation_time = 0x2122_2324_2526_2728;
    for i in 0..10 {
        inode.block_pointers[i] = 0x3000_0000 + i as u32;
    }
    inode.singly_indirect_block_pointer = 0x4142_4344;
    inode.doubly_indirect_block_pointer = 0x5152_5354;
    let bytes = inode.to_bytes();
    assert_eq!(bytes.len(), 128);
    assert_eq!(&bytes[0..2], &[0xa4, 0x81]);
    assert_eq!(&bytes[2..4], &[0x02, 0x01]);
    assert_eq!(&bytes[4..6], &[0x04, 0x03]);
    assert_eq!(&bytes[6..14], &[0x18, 0x17, 0x16, 0x15, 0x14, 0x13, 0x12, 0x11]);
    assert_eq!(&bytes[14..22], &[0x28, 0x27, 0x26, 0x25, 0x24, 0x23, 0x22, 0x21]);
    assert_eq!(&bytes[22..24], &[0x06, 0x05]);
    for i in 0..10 {
        assert_eq!(&bytes[24 + 4 * i..28 + 4 * i], &[i as u8, 0, 0, 0x30]);
    }
    assert_eq!(&bytes[64..68], &[0x44, 0x43, 0x42, 0x41]);
    assert_eq!(&bytes[68..72], &[0x54, 0x53, 0x52, 0x51]);
    assert_eq!(&bytes[72..76], &[0x0a, 0x09, 0x08, 0x07]);
    assert!(bytes[76..].iter().all(|b| *b == 0));
    let back = Inode::from_bytes(&bytes);
    assert_eq!(back.to_bytes(), bytes);
    assert_eq!(back.block_pointers, inode.block_pointers);
    assert_eq!(back.creation_time, inode.creation_time);
    assert_eq!(back.meta, inode.meta);
}

#[test]
fn inodes_are_stored_in_slots_of_128_bytes() {
    let mut fs = FileSystem::create(300, "fs").unwrap();
    let inode = Inode::create(PermissionsAndType(0x8000), 1, 2, 3, 4, 5);
    fs.write_inode(70, &inode).unwrap();
    assert_eq!(fs.get_disk().read_bytes(70 * 128, 128).unwrap(), inode.to_bytes());
    assert_eq!(fs.read_inode(70).unwrap().to_bytes(), inode.to_bytes());
    assert!(matches!(
        fs.read_inode(300 * 32),
        Err(FsError::DiskError(DiskError::NotEnoughSpace))
    ));
    assert!(matches!(
        fs.write_inode(300 * 32, &inode),
        Err(FsError::DiskError(DiskError::NotEnoughSpace))
    ));
}

#[test]
fn new_inodes_fill_the_hinted_block_first() {
    let mut fs = FileSystem::create(300, "fs").unwrap();
    let mut slots = Vec::new();
    for _ in 0..40 {
        let mut inode = file_inode();
        inode.hardlinks = 1;
        slots.push(fs.create_inode(&inode).unwrap());
    }
    let expected: Vec<u32> = (65..96).chain(96..105).collect();
    assert_eq!(slots, expected);
    assert_eq!(fs.superblock.earliest_inode_space, 96);
    assert_eq!(entry(&mut fs, 2), BlockArrayEntry::InodeBlock);
    assert_eq!(entry(&mut fs, 3), BlockArrayEntry::InodeBlock);
    let mut gone = fs.read_inode(97).unwrap();
    gone.delete(97, &mut fs).unwrap();
    let mut inode = file_inode();
    inode.hardlinks = 1;
    assert_eq!(fs.create_inode(&inode).unwrap(), 97);
}

#[test]
fn low_slots_are_never_handed_out() {
    let mut fs = FileSystem::create(300, "fs").unwrap();
    fs.superblock.earliest_inode_space = 32;
    let mut inode = file_inode();
    inode.hardlinks = 1;
    assert_eq!(fs.create_inode(&inode).unwrap(), 96);
}

#[test]
fn only_files_can_be_written() {
    let mut fs = FileSystem::create(300, "fs").unwrap();
    let root = fs.superblock.root_inode;
    let mut dir = fs.read_inode(root).unwrap();
    let before = fs.get_disk().to_vec().unwrap();
    let inode_before = dir.to_bytes();
    let unused_before = fs.superblock.total_unused;
    assert!(matches!(dir.file_write(b"data", &mut fs, root), Err(FsError::NoSpace)));
    assert_eq!(fs.get_disk().to_vec().unwrap(), before);
    assert_eq!(dir.to_bytes(), inode_before);
    assert_eq!(fs.superblock.total_unused, unused_before);
}

#[test]
fn written_files_read_back() {
    let mut fs = FileSystem::create(3000, "fs").unwrap();
    for (i, len) in [0usize, 1, 4095, 4096, 4097, 10_000, 40_960, 40_961, 45_000, 4_235_264, 4_235_265, 4_300_000]
        .into_iter()
        .enumerate()
    {
        let (nbr, mut inode) = new_file(&mut fs, &format!("file_{i}"));
        let buf = pattern(len, i as u32);
        inode.file_write(&buf, &mut fs, nbr).unwrap();
        assert_eq!(inode.meta as usize, len % 4096);
        let blocks = (len + 4095) / 4096;
        for b in 0..blocks {
            assert!(inode.get_block_id(b as u32, &mut fs).is_some());
        }
        assert!(inode.get_block_id(blocks as u32, &mut fs).is_none());
        assert_eq!(inode.singly_indirect_block_pointer != 0, blocks > 10);
        assert_eq!(inode.doubly_indirect_block_pointer != 0, blocks > 1034);
        let mut stored = fs.read_inode(nbr).unwrap();
        assert_eq!(stored.to_bytes(), inode.to_bytes());
        assert_eq!(read_entire_inode(&mut stored, &mut fs).unwrap(), buf);
        let mut gone = fs.read_inode(nbr).unwrap();
        gone.delete(nbr, &mut fs).unwrap();
    }
}

#[test]
fn blocks_are_found_through_the_pointer_blocks() {
    let mut fs = FileSystem::create(3000, "fs").unwrap();
    let (nbr, mut inode) = new_file(&mut fs, "big");
    let buf = pattern(1040 * 4096, 5);
    inode.file_write(&buf, &mut fs, nbr).unwrap();
    let singly = inode.singly_indirect_block_pointer as u64;
    let doubly = inode.doubly_indirect_block_pointer as u64;
    assert_eq!(inode.get_block_id(0, &mut fs), Some(inode.block_pointers[0]));
    assert_eq!(inode.get_block_id(9, &mut fs), Some(inode.block_pointers[9]));
    let tenth = fs.get_disk().read_u32(singly * 4096).unwrap();
    assert_eq!(inode.get_block_id(10, &mut fs), Some(tenth));
    let last_single = fs.get_disk().read_u32(singly * 4096 + 1023 * 4).unwrap();
    assert_eq!(inode.get_block_id(1033, &mut fs), Some(last_single));
    assert_eq!(fs.get_disk().read_u32(doubly * 4096).unwrap(), 0);
    let inner = fs.get_disk().read_u32(doubly * 4096 + 4).unwrap() as u64;
    assert_ne!(inner, 0);
    let first_double = fs.get_disk().read_u32(inner * 4096).unwrap();
    assert_eq!(inode.get_block_id(1034, &mut fs), Some(first_double));
    let sixth = fs.get_disk().read_u32(inner * 4096 + 5 * 4).unwrap();
    assert_eq!(inode.get_block_id(1039, &mut fs), Some(sixth));
    assert_eq!(fs.get_disk().read_u32(inner * 4096 + 6 * 4).unwrap(), 0);
    assert_eq!(inode.get_block_id(1040, &mut fs), None);
    assert_eq!(inode.get_block_id(MAX_BLOCKS, &mut fs), None);
    assert_eq!(inode.get_block_id(u32::MAX, &mut fs), None);
    let start = first_double as u64 * 4096;
    assert_eq!(fs.get_disk().read_bytes(start, 4096).unwrap(), &buf[1034 * 4096..1035 * 4096]);
}

#[test]
fn a_part_of_a_file_can_be_read() {
    let mut fs = FileSystem::create(300, "fs").unwrap();
    let (nbr, mut inode) = new_file(&mut fs, "f");
    let buf = pattern(10_000, 1);
    inode.file_write(&buf, &mut fs, nbr).unwrap();
    let mut out = vec![0xeeu8; 5000];
    assert_eq!(inode.read(3000, &mut out, &mut fs).unwrap(), 5000);
    assert_eq!(&out[..], &buf[3000..8000]);
    inode.read_exact(4090, &mut out[..12], &mut fs).unwrap();
    assert_eq!(&out[..12], &buf[4090..4102]);
    let mut out = vec![0xeeu8; 5000];
    assert_eq!(inode.read(3 * 4096 - 100, &mut out, &mut fs).unwrap(), 100);
    assert!(out[100..].iter().all(|b| *b == 0xee));
    assert_eq!(inode.read(3 * 4096, &mut out, &mut fs).unwrap(), 0);
    assert_eq!(inode.read(u64::MAX, &mut out, &mut fs).unwrap(), 0);
    assert_eq!(inode.read(0, &mut [], &mut fs).unwrap(), 0);
    assert!(matches!(inode.read_exact(3 * 4096 - 100, &mut out, &mut fs), Err(FsError::NoSpace)));
    assert!(inode.read_exact(3 * 4096 - 100, &mut out[..100], &mut fs).is_ok());
}

#[test]
fn a_shorter_write_gives_the_direct_blocks_back() {
    let mut fs = FileSystem::create(300, "fs").unwrap();
    let (nbr, mut inode) = new_file(&mut fs, "f");
    inode.file_write(&pattern(9 * 4096, 1), &mut fs, nbr).unwrap();
    let blocks = inode.block_pointers;
    let free_before = fs.superblock.earliest_free;
    let buf = pattern(2 * 4096 + 5, 2);
    inode.file_write(&buf, &mut fs, nbr).unwrap();
    assert_eq!(&inode.block_pointers[..3], &blocks[..3]);
    assert_eq!(&inode.block_pointers[3..], &[0; 7]);
    for b in &blocks[..3] {
        assert_eq!(entry(&mut fs, *b), BlockArrayEntry::Allocated);
    }
    for b in &blocks[3..9] {
        assert_eq!(entry(&mut fs, *b), BlockArrayEntry::Unused);
    }
    assert!(fs.superblock.earliest_free < free_before);
    assert_eq!(fs.superblock.earliest_free, blocks[3]);
    let mut stored = fs.read_inode(nbr).unwrap();
    assert_eq!(read_entire_inode(&mut stored, &mut fs).unwrap(), buf);
}

#[test]
fn shrinking_to_the_direct_blocks_gives_the_pointer_blocks_back() {
    let mut fs = FileSystem::create(3000, "fs").unwrap();
    let (nbr, mut inode) = new_file(&mut fs, "f");
    inode.file_write(&pattern(1036 * 4096, 1), &mut fs, nbr).unwrap();
    let singly = inode.singly_indirect_block_pointer;
    let doubly = inode.doubly_indirect_block_pointer;
    let in_singly = inode.get_block_id(500, &mut fs).unwrap();
    let in_doubly = inode.get_block_id(1035, &mut fs).unwrap();
    inode.resize_self(4, &mut fs, nbr).unwrap();
    assert_eq!(inode.singly_indirect_block_pointer, 0);
    assert_eq!(inode.doubly_indirect_block_pointer, 0);
    for b in [singly, doubly, in_singly, in_doubly] {
        assert_eq!(entry(&mut fs, b), BlockArrayEntry::Unused);
    }
    assert!(inode.get_block_id(3, &mut fs).is_some());
    assert!(inode.get_block_id(4, &mut fs).is_none());
    assert!(inode.get_block_id(500, &mut fs).is_none());
    assert_eq!(fs.read_inode(nbr).unwrap().to_bytes(), inode.to_bytes());
}

#[test]
fn shrinking_to_1034_blocks_gives_the_doubly_indirect_blocks_back() {
    let mut fs = FileSystem::create(3000, "fs").unwrap();
    let (nbr, mut inode) = new_file(&mut fs, "f");
    inode.file_write(&pattern(1040 * 4096 - 7, 1), &mut fs, nbr).unwrap();
    let doubly = inode.doubly_indirect_block_pointer;
    let buf = pattern(1034 * 4096 - 100, 2);
    inode.file_write(&buf, &mut fs, nbr).unwrap();
    assert_eq!(inode.doubly_indirect_block_pointer, 0);
    assert_ne!(inode.singly_indirect_block_pointer, 0);
    assert_eq!(entry(&mut fs, doubly), BlockArrayEntry::Unused);
    assert!(inode.get_block_id(1033, &mut fs).is_some());
    assert!(inode.get_block_id(1034, &mut fs).is_none());
    let mut stored = fs.read_inode(nbr).unwrap();
    assert_eq!(read_entire_inode(&mut stored, &mut fs).unwrap(), buf);
}

#[test]
fn a_shorter_write_gives_the_blocks_beyond_it_back() {
    let mut fs = FileSystem::create(300, "fs").unwrap();
    let (nbr, mut inode) = new_file(&mut fs, "f");
    let long = pattern(20 * 4096, 1);
    inode.file_write(&long, &mut fs, nbr).unwrap();
    let singly = inode.singly_indirect_block_pointer as u64;
    let beyond: Vec<u32> = (15..20).map(|i| inode.get_block_id(i, &mut fs).unwrap()).collect();
    let unused_before = fs.superblock.total_unused;
    let short = pattern(15 * 4096, 2);
    inode.file_write(&short, &mut fs, nbr).unwrap();
    assert_eq!(inode.meta, 0);
    for i in 0..15 {
        assert!(inode.get_block_id(i, &mut fs).is_some());
    }
    for i in 15..25 {
        assert!(inode.get_block_id(i, &mut fs).is_none());
    }
    for (k, block) in beyond.iter().enumerate() {
        assert_eq!(entry(&mut fs, *block), BlockArrayEntry::Unused);
        assert_eq!(fs.get_disk().read_u32(singly * 4096 + (5 + k as u64) * 4).unwrap(), 0);
    }
    assert_eq!(inode.singly_indirect_block_pointer as u64, singly);
    assert_eq!(fs.superblock.total_unused, unused_before + 5);
    let mut stored = fs.read_inode(nbr).unwrap();
    assert_eq!(read_entire_inode(&mut stored, &mut fs).unwrap(), short);
}

#[test]
fn resize_leaves_exactly_the_blocks_asked_for() {
    let mut fs = FileSystem::create(6000, "fs").unwrap();
    let (nbr, mut inode) = new_file(&mut fs, "f");
    let start = fs.superblock.total_unused;
    for (from, to) in [
        (0u32, 3u32),
        (3, 3),
        (3, 12),
        (12, 11),
        (11, 1034),
        (1034, 1033),
        (1033, 1035),
        (1035, 3200),
        (3200, 3082),
        (3082, 2058),
        (2058, 2059),
        (2059, 1034),
        (1034, 2100),
        (2100, 9),
        (9, 2058),
        (2058, 0),
    ] {
        inode.resize_self(to, &mut fs, nbr).unwrap();
        for i in [0, to.saturating_sub(1), from.min(to).saturating_sub(1)] {
            if i < to {
                assert!(inode.get_block_id(i, &mut fs).is_some());
            }
        }
        for i in [to, to + 1, from, 1033, 1034, 2057, 2058, 3199] {
            if i >= to {
                assert!(inode.get_block_id(i, &mut fs).is_none());
            }
        }
        assert_eq!(inode.singly_indirect_block_pointer != 0, to > 10);
        assert_eq!(inode.doubly_indirect_block_pointer != 0, to > 1034);
        let pointer_blocks = (to > 10) as u32
            + (to > 1034) as u32
            + if to > 1034 { (to - 11) / 1024 } else { 0 };
        assert_eq!(fs.superblock.total_unused, start - to - pointer_blocks);
        assert_eq!(fs.read_inode(nbr).unwrap().to_bytes(), inode.to_bytes());
    }
    let mounted = FileSystem::from_disk(sfs::disk::Disk::new(fs.get_disk().to_vec().unwrap())).unwrap();
    assert_eq!(mounted.superblock.total_unused, start);
}

#[test]
fn a_file_cannot_grow_beyond_the_device() {
    let mut fs = FileSystem::create(20, "fs").unwrap();
    let (nbr, mut inode) = new_file(&mut fs, "f");
    assert!(matches!(
        inode.file_write(&pattern(30 * 4096, 1), &mut fs, nbr),
        Err(FsError::NoSpace)
    ));
    assert_eq!(fs.superblock.earliest_free, 0);
}

#[test]
fn a_file_grows_where_its_blocks_and_one_more_are_unused() {
    // 14 blocks of content take 15 blocks with the singly indirect block
    let mut fs = FileSystem::create(20, "fs").unwrap();
    let (nbr, mut inode) = new_file(&mut fs, "f");
    assert_eq!(fs.superblock.total_unused, 16);
    inode.file_write(&pattern(14 * 4096, 1), &mut fs, nbr).unwrap();
    assert_eq!(fs.superblock.total_unused, 1);
    assert_ne!(fs.superblock.earliest_free, 0);
    assert_eq!(read_entire_inode(&mut inode, &mut fs).unwrap(), pattern(14 * 4096, 1));

    // 15 blocks of content take 16, which leaves none
    let mut fs = FileSystem::create(20, "fs").unwrap();
    let (nbr, mut inode) = new_file(&mut fs, "f");
    assert_eq!(fs.superblock.total_unused, 16);
    assert!(matches!(
        inode.file_write(&pattern(15 * 4096, 1), &mut fs, nbr),
        Err(FsError::NoSpace)
    ));
}

#[test]
fn delete_takes_one_hard_link() {
    let mut fs = FileSystem::create(300, "fs").unwrap();
    let (nbr, mut inode) = new_file(&mut fs, "f");
    inode.file_write(&pattern(5000, 1), &mut fs, nbr).unwrap();
    let root = fs.superblock.root_inode;
    assert_eq!(fs.link_to_inode(root, nbr, "again".to_string()).unwrap(), nbr);
    let mut inode = fs.read_inode(nbr).unwrap();
    assert_eq!(inode.hardlinks, 2);
    let blocks = inode.block_pointers;
    inode.delete(nbr, &mut fs).unwrap();
    assert_eq!(inode.hardlinks, 1);
    assert_eq!(fs.read_inode(nbr).unwrap().hardlinks, 1);
    assert_eq!(fs.read_inode(nbr).unwrap().block_pointers, blocks);
    assert_eq!(entry(&mut fs, blocks[0]), BlockArrayEntry::Allocated);
    inode.delete(nbr, &mut fs).unwrap();
    assert_eq!(inode.hardlinks, 0);
    assert_eq!(inode.block_pointers, [0; 10]);
    assert_eq!(fs.read_inode(nbr).unwrap().to_bytes(), inode.to_bytes());
    assert_eq!(entry(&mut fs, blocks[0]), BlockArrayEntry::Unused);
    assert_eq!(entry(&mut fs, blocks[1]), BlockArrayEntry::Unused);
    assert_eq!(entry(&mut fs, nbr / 32), BlockArrayEntry::InodeBlock);
}

#[test]
fn delete_gives_all_blocks_back() {
    let mut fs = FileSystem::create(3000, "fs").unwrap();
    let free_before = fs.superblock.earliest_free;
    let (nbr, mut inode) = new_file(&mut fs, "f");
    let dir_block = fs.read_inode(fs.superblock.root_inode).unwrap().block_pointers[0];
    inode.file_write(&pattern(1100 * 4096, 1), &mut fs, nbr).unwrap();
    let last = fs.superblock.earliest_free;
    assert_eq!(last, free_before + 1 + 1100 + 3);
    inode.delete(nbr, &mut fs).unwrap();
    assert_eq!(inode.singly_indirect_block_pointer, 0);
    assert_eq!(inode.doubly_indirect_block_pointer, 0);
    for b in free_before..last {
        let expected = if b == dir_block { BlockArrayEntry::Allocated } else { BlockArrayEntry::Unused };
        assert_eq!(entry(&mut fs, b), expected);
    }
    assert_eq!(fs.superblock.earliest_free, dir_block + 1);
}

#[test]
fn an_inode_block_without_inodes_is_given_back() {
    let mut fs = FileSystem::create(300, "fs").unwrap();
    let mut slots = Vec::new();
    for _ in 0..33 {
        let mut inode = file_inode();
        inode.hardlinks = 1;
        slots.push(fs.create_inode(&inode).unwrap());
    }
    assert_eq!(slots[31], 96);
    assert_eq!(slots[32], 97);
    assert_eq!(fs.superblock.earliest_inode_space, 96);
    let mut first = fs.read_inode(96).unwrap();
    first.delete(96, &mut fs).unwrap();
    assert_eq!(entry(&mut fs, 3), BlockArrayEntry::InodeBlock);
    assert_eq!(fs.superblock.earliest_inode_space, 96);
    let mut second = fs.read_inode(97).unwrap();
    second.delete(97, &mut fs).unwrap();
    assert_eq!(entry(&mut fs, 3), BlockArrayEntry::Unused);
    assert_eq!(fs.superblock.earliest_inode_space, 0);
    assert_eq!(fs.superblock.earliest_free, 3);
    assert_eq!(fs.get_disk().read_bytes(3 * 4096, 4096).unwrap(), vec![0u8; 4096]);
    let mounted = FileSystem::from_disk(sfs::disk::Disk::new(fs.get_disk().to_vec().unwrap())).unwrap();
    assert_eq!(mounted.superblock.earliest_inode_space, 0);
    assert_eq!(fs.allocate_block(false).unwrap(), 3);
}

#[test]
fn unallocate_block_frees_what_a_pointer_block_names() {
    let mut fs = FileSystem::create(300, "fs").unwrap();
    let table = fs.allocate_block(false).unwrap();
    let a = fs.allocate_block(false).unwrap();
    let b = fs.allocate_block(false).unwrap();
    fs.get_disk().write_u32(table as u64 * 4096 + 8, a).unwrap();
    fs.get_disk().write_u32(table as u64 * 4096 + 4092, b).unwrap();
    Inode::unallocate_block(false, table, &mut fs).unwrap();
    assert_eq!(entry(&mut fs, a), BlockArrayEntry::Unused);
    assert_eq!(entry(&mut fs, b), BlockArrayEntry::Unused);
    assert_eq!(entry(&mut fs, table), BlockArrayEntry::Allocated);
    assert!(matches!(Inode::unallocate_block(false, 0, &mut fs), Err(FsError::InvalidBlock)));
    assert!(matches!(
        Inode::unallocate_block(true, 400, &mut fs),
        Err(FsError::DiskError(DiskError::NotEnoughSpace))
    ));
}

#[test]
fn nothing_is_read_into_an_empty_buffer_or_beyond_the_last_block() {
    let mut fs = FileSystem::create(300, "fs").unwrap();
    let (nbr, mut inode) = new_file(&mut fs, "f");
    inode.file_write(&pattern(5000, 3), &mut fs, nbr).unwrap();
    let mut none: [u8; 0] = [];
    assert_eq!(inode.read(0, &mut none, &mut fs).unwrap(), 0);
    let mut buf = [7u8; 16];
    assert_eq!(inode.read(MAX_BLOCKS as u64 * 4096, &mut buf, &mut fs).unwrap(), 0);
    assert_eq!(buf, [7u8; 16]);
}

#[test]
fn the_block_of_a_descriptor_is_no_pointer_block() {
    let mut fs = FileSystem::create(300, "fs").unwrap();
    let before = fs.get_disk().to_vec().unwrap();
    assert!(matches!(Inode::unallocate_block(false, 0, &mut fs), Err(FsError::InvalidBlock)));
    assert!(matches!(Inode::unallocate_block(true, 0, &mut fs), Err(FsError::InvalidBlock)));
    assert_eq!(fs.get_disk().to_vec().unwrap(), before);
}
