use sfs::directory::{DirEntry, DirectoryIterator, DIRENTRY_LAST_OFFSET, DIRENTRY_NAME_LENGTH};
use sfs::disk::{Disk, DiskError};
use sfs::fs::{FileSystem, FsError};
use sfs::inode::{Inode, InodeType, Permission, PermissionsAndType};

fn file_inode() -> Inode {
    Inode::create(
        PermissionsAndType::new(InodeType::File, &[Permission::user_rw()]),
        0,
        0,
        0,
        0,
        0,
    )
}

fn list(fs: &mut FileSystem<Vec<u8>>, dir: u32) -> Vec<(String, u32)> {
    let node = fs.read_inode(dir).unwrap();
    let mut it = DirectoryIterator::new(node);
    let mut out = Vec::new();
    while let Some(entry) = it.next(fs) {
        out.push((entry.get_name(), entry.inode));
    }
    out
}

#[test]
fn an_entry_holds_its_name_and_inode() {
    let entry = DirEntry::create(77, "hello".to_string()).unwrap();
    assert_eq!(entry.inode, 77);
    assert_eq!(entry.name_size, 5);
    assert_eq!(&entry.name[..5], b"hello");
    assert!(entry.name[5..].iter().all(|b| *b == 0));
    assert_eq!(entry.get_size(), 10);
    assert_eq!(entry.get_name(), "hello");
    assert!(!entry.is_empty());
    assert_eq!(DIRENTRY_NAME_LENGTH, 255);
    assert_eq!(DIRENTRY_LAST_OFFSET, 4096 - 260);
    let longest = DirEntry::create(1, "x".repeat(254)).unwrap();
    assert_eq!(longest.get_size(), 259);
}

#[test]
fn names_are_bytes() {
    let entry = DirEntry::create(5, "gr\u{fc}n".to_string()).unwrap();
    assert_eq!(entry.name_size, 5);
    assert_eq!(&entry.name[..5], &[b'g', b'r', 0xc3, 0xbc, b'n']);
    assert_eq!(entry.get_name(), "gr\u{fc}n");
    let mut broken = DirEntry::create(5, "abc".to_string()).unwrap();
    broken.name[1] = 0xff;
    assert_eq!(broken.get_name(), "a\u{fffd}c");
}

#[test]
fn an_entry_without_inode_or_name_marks_a_free_place() {
    assert!(DirEntry::create(0, "name".to_string()).unwrap().is_empty());
    assert!(DirEntry { name_size: 0, inode: 9, name: [0; 255] }.is_empty());
    assert!(!DirEntry { name_size: 1, inode: 9, name: [0; 255] }.is_empty());
}

#[test]
fn an_entry_is_stored_as_size_inode_and_name() {
    let mut disk = Disk::new(vec![0xeeu8; 40]);
    let entry = DirEntry::create(0x0102_0304, "abc".to_string()).unwrap();
    entry.write_to_disk(&mut disk, 10).unwrap();
    let image = disk.to_vec().unwrap();
    assert_eq!(&image[10..18], &[3, 4, 3, 2, 1, b'a', b'b', b'c']);
    assert!(image[..10].iter().all(|b| *b == 0xee));
    assert!(image[18..].iter().all(|b| *b == 0xee));
    assert!(matches!(
        entry.write_to_disk(&mut disk, 33),
        Err(FsError::DiskError(DiskError::NotEnoughSpace))
    ));
    assert!(entry.write_to_disk(&mut disk, 32).is_ok());
}

#[test]
fn entries_are_read_through_the_directory() {
    let mut fs = FileSystem::create(300, "fs").unwrap();
    let root = fs.superblock.root_inode;
    let nbr = fs.create_dir_entry(root, file_inode(), "first".to_string()).unwrap();
    fs.create_dir_entry(root, file_inode(), "second one".to_string()).unwrap();
    let mut dir = fs.read_inode(root).unwrap();
    let entry = DirEntry::read_from_disk(&mut dir, &mut fs, 0).unwrap();
    assert_eq!((entry.get_name(), entry.inode, entry.name_size), ("first".to_string(), nbr, 5));
    let entry = DirEntry::read_from_disk(&mut dir, &mut fs, 10).unwrap();
    assert_eq!((entry.get_name(), entry.inode), ("second one".to_string(), nbr + 1));
    let entry = DirEntry::read_from_disk(&mut dir, &mut fs, 25).unwrap();
    assert!(entry.is_empty());
    assert_eq!(entry.get_size(), 5);
    assert!(matches!(DirEntry::read_from_disk(&mut dir, &mut fs, 4096), Err(FsError::NoSpace)));
    assert!(matches!(
        DirEntry::read_from_disk(&mut dir, &mut fs, 4095),
        Err(FsError::DiskError(DiskError::NotEnoughSpace))
    ));
    assert!(matches!(DirEntry::read_from_disk(&mut dir, &mut fs, u64::MAX), Err(FsError::NoSpace)));
}

#[test]
fn a_new_directory_lists_nothing() {
    let mut fs = FileSystem::create(300, "fs").unwrap();
    let root = fs.superblock.root_inode;
    assert_eq!(list(&mut fs, root), Vec::new());
}

#[test]
fn entries_are_listed_in_the_order_of_their_writing() {
    let mut fs = FileSystem::create(300, "fs").unwrap();
    let root = fs.superblock.root_inode;
    let mut expected = Vec::new();
    for i in 0..700u32 {
        let name = format!("{}_{}", "n".repeat((i as usize * 37) % 200 + 1), i);
        let mut dir = fs.read_inode(root).unwrap();
        let entry = DirEntry::create(1000 + i, name.clone()).unwrap();
        assert_eq!(dir.write_dir_entry(&mut fs, &entry, None, root).unwrap(), i);
        expected.push((name, 1000 + i));
    }
    let dir = fs.read_inode(root).unwrap();
    assert!(dir.block_pointers[9] != 0);
    assert!(dir.singly_indirect_block_pointer != 0);
    assert_eq!(list(&mut fs, root), expected);
}

#[test]
fn an_entry_never_crosses_a_block() {
    let mut fs = FileSystem::create(300, "fs").unwrap();
    let root = fs.superblock.root_inode;
    let name = "y".repeat(250);
    for i in 0..16u32 {
        let mut dir = fs.read_inode(root).unwrap();
        let entry = DirEntry::create(7, name.clone()).unwrap();
        dir.write_dir_entry(&mut fs, &entry, None, root).unwrap();
        let mut dir = fs.read_inode(root).unwrap();
        let at = dir.get_dir_entry_by_nbr(&mut fs, i).unwrap();
        assert_eq!(at, if i < 16 { (i / 16, (i % 16) * 255, i) } else { (1, 0, i) });
    }
    let mut dir = fs.read_inode(root).unwrap();
    assert_eq!(dir.block_pointers[1], 0);
    let entry = DirEntry::create(7, name.clone()).unwrap();
    assert_eq!(dir.write_dir_entry(&mut fs, &entry, None, root).unwrap(), 16);
    assert_ne!(dir.block_pointers[1], 0);
    assert_eq!(dir.get_dir_entry_by_nbr(&mut fs, 16).unwrap(), (1, 0, 16));
    assert_eq!(dir.get_dir_entry_by_nbr(&mut fs, 15).unwrap(), (0, 3825, 15));
    assert_eq!(list(&mut fs, root).len(), 17);
}

#[test]
fn a_free_place_is_used_again() {
    let mut fs = FileSystem::create(300, "fs").unwrap();
    let root = fs.superblock.root_inode;
    for name in ["aaaa", "bbbb", "cccc"] {
        fs.create_dir_entry(root, file_inode(), name.to_string()).unwrap();
    }
    let mut dir = fs.read_inode(root).unwrap();
    let gone = DirEntry::create(0, "bbbb".to_string()).unwrap();
    assert_eq!(dir.write_dir_entry(&mut fs, &gone, Some(1), root).unwrap(), 1);
    assert_eq!(list(&mut fs, root), vec![("aaaa".to_string(), 65), ("cccc".to_string(), 67)]);
    assert_eq!(dir.get_next_free_dir_entry_slot(&mut fs, root).unwrap(), (0, 9, 1));
    let nbr = fs.create_dir_entry(root, file_inode(), "dddd".to_string()).unwrap();
    assert_eq!(
        list(&mut fs, root),
        vec![("aaaa".to_string(), 65), ("dddd".to_string(), nbr), ("cccc".to_string(), 67)]
    );
}

#[test]
fn a_numbered_entry_must_exist() {
    let mut fs = FileSystem::create(300, "fs").unwrap();
    let root = fs.superblock.root_inode;
    let mut dir = fs.read_inode(root).unwrap();
    let entry = DirEntry::create(9, "e".to_string()).unwrap();
    assert!(matches!(dir.write_dir_entry(&mut fs, &entry, Some(0), root), Err(FsError::NoEntry)));
    assert!(matches!(dir.get_dir_entry_by_nbr(&mut fs, 0), Err(FsError::NoEntry)));
    dir.write_dir_entry(&mut fs, &entry, None, root).unwrap();
    assert_eq!(dir.get_dir_entry_by_nbr(&mut fs, 0).unwrap(), (0, 0, 0));
    assert_eq!(dir.get_dir_entry_by_nbr(&mut fs, 1).unwrap(), (0, 6, 1));
    assert!(matches!(dir.get_dir_entry_by_nbr(&mut fs, 1000), Err(FsError::NoEntry)));
}

#[test]
fn only_directories_take_entries() {
    let mut fs = FileSystem::create(300, "fs").unwrap();
    let root = fs.superblock.root_inode;
    let nbr = fs.create_dir_entry(root, file_inode(), "file".to_string()).unwrap();
    let mut file = fs.read_inode(nbr).unwrap();
    let entry = DirEntry::create(9, "e".to_string()).unwrap();
    let before = fs.get_disk().to_vec().unwrap();
    let inode_before = file.to_bytes();
    assert!(matches!(file.write_dir_entry(&mut fs, &entry, None, nbr), Err(FsError::NoEntry)));
    assert_eq!(fs.get_disk().to_vec().unwrap(), before);
    assert_eq!(file.to_bytes(), inode_before);
    assert!(matches!(
        fs.create_dir_entry(nbr, file_inode(), "below a file".to_string()),
        Err(FsError::NoEntry)
    ));
}

#[test]
fn a_link_adds_a_hard_link_and_a_name() {
    let mut fs = FileSystem::create(300, "fs").unwrap();
    let root = fs.superblock.root_inode;
    let mut child = file_inode();
    child.hardlinks = 40;
    let nbr = fs.create_dir_entry(root, child, "one".to_string()).unwrap();
    assert_eq!(nbr, 65);
    assert_eq!(fs.read_inode(nbr).unwrap().hardlinks, 1);
    assert_eq!(fs.link_to_inode(root, nbr, "two".to_string()).unwrap(), nbr);
    assert_eq!(fs.read_inode(nbr).unwrap().hardlinks, 2);
    assert_eq!(list(&mut fs, root), vec![("one".to_string(), 65), ("two".to_string(), 65)]);
    assert!(matches!(fs.link_to_inode(root, nbr, String::new()), Err(FsError::NameTooLong)));
    assert_eq!(fs.read_inode(nbr).unwrap().hardlinks, 3);
    let mut full = fs.read_inode(nbr).unwrap();
    full.hardlinks = u16::MAX;
    fs.write_inode(nbr, &full).unwrap();
    assert!(matches!(fs.link_to_inode(root, nbr, "three".to_string()), Err(FsError::NoSpace)));
    assert_eq!(fs.read_inode(nbr).unwrap().hardlinks, u16::MAX);
}

#[test]
fn directories_can_hold_directories() {
    let mut fs = FileSystem::create(300, "fs").unwrap();
    let root = fs.superblock.root_inode;
    let dir = Inode::create(
        PermissionsAndType::new(InodeType::Directory, &[Permission::user_all()]),
        0,
        0,
        0,
        0,
        0,
    );
    let sub = fs.create_dir_entry(root, dir, "sub".to_string()).unwrap();
    let a = fs.create_dir_entry(sub, file_inode(), "a".to_string()).unwrap();
    let b = fs.create_dir_entry(sub, file_inode(), "b".to_string()).unwrap();
    assert_eq!(list(&mut fs, root), vec![("sub".to_string(), sub)]);
    assert_eq!(list(&mut fs, sub), vec![("a".to_string(), a), ("b".to_string(), b)]);
}

#[test]
fn entries_are_made_while_the_blocks_they_take_are_unused() {
    let mut fs = FileSystem::create(5, "fs").unwrap();
    assert_eq!(fs.superblock.total_unused, 2);
    let root = fs.superblock.root_inode;
    // the first entry takes a block for the directory, the second none
    let a = fs.create_dir_entry(root, file_inode(), "a".to_string()).unwrap();
    assert_eq!(fs.superblock.total_unused, 1);
    let b = fs.create_dir_entry(root, file_inode(), "b".to_string()).unwrap();
    assert_eq!(fs.superblock.total_unused, 1);
    assert_eq!(list(&mut fs, root), vec![("a".to_string(), a), ("b".to_string(), b)]);
}

#[test]
fn an_entry_is_refused_where_the_directory_cannot_grow() {
    let mut fs = FileSystem::create(4, "fs").unwrap();
    assert_eq!(fs.superblock.total_unused, 1);
    let root = fs.superblock.root_inode;
    assert!(matches!(
        fs.create_dir_entry(root, file_inode(), "a".to_string()),
        Err(FsError::NoSpace)
    ));
    assert_eq!(list(&mut fs, root), vec![]);
}

#[test]
fn links_are_listed_in_the_order_in_which_they_were_made() {
    let mut fs = FileSystem::create(300, "fs").unwrap();
    let root = fs.superblock.root_inode;
    let first = fs.create_dir_entry(root, file_inode(), "first".to_string()).unwrap();
    let second = fs.create_dir_entry(root, file_inode(), "second".to_string()).unwrap();
    let mut expected = vec![("first".to_string(), first), ("second".to_string(), second)];
    for i in 0..400u32 {
        let child = if i % 2 == 0 { first } else { second };
        let name = format!("link_{i}_{}", "x".repeat((i % 7) as usize));
        assert_eq!(fs.link_to_inode(root, child, name.clone()).unwrap(), child);
        expected.push((name, child));
    }
    assert_eq!(list(&mut fs, root), expected);
    assert_eq!(fs.read_inode(first).unwrap().hardlinks, 201);
    assert_eq!(fs.read_inode(second).unwrap().hardlinks, 201);
    assert!(fs.read_inode(root).unwrap().block_pointers[1] != 0);
}

#[test]
fn a_walk_beyond_the_last_block_yields_nothing() {
    let mut fs = FileSystem::create(300, "fs").unwrap();
    let root = fs.superblock.root_inode;
    fs.create_dir_entry(root, file_inode(), "a".to_string()).unwrap();
    let dir = fs.read_inode(root).unwrap();
    let mut walk = DirectoryIterator::new(dir);
    walk.next_blk = sfs::inode::MAX_BLOCKS;
    assert!(walk.next(&mut fs).is_none());
    assert_eq!(walk.next_blk, sfs::inode::MAX_BLOCKS);
    assert_eq!(walk.next_off, 0);
}
