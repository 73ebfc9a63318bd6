use sfs::directory::{DirEntry, DirectoryIterator};
use sfs::disk::Disk;
use sfs::fs::{FileSystem, FsError};
use sfs::inode::{read_entire_inode, Inode, InodeType, Permission, PermissionsAndType};

fn file_inode() -> Inode {
    Inode::create(
        PermissionsAndType::new(
            InodeType::File,
            &[Permission::user_rw(), Permission::group_rw(), Permission::OtherRead],
        ),
        0,
        0,
        0,
        0,
        0,
    )
}

fn list_root(fs: &mut FileSystem<Vec<u8>>) -> Vec<(String, u32)> {
    let root = fs.superblock.root_inode;
    let node = fs.read_inode(root).expect("root inode");
    let mut it = DirectoryIterator::new(node);
    let mut out = Vec::new();
    while let Some(entry) = it.next(fs) {
        out.push((entry.get_name(), entry.inode));
    }
    out
}

fn with_32_files(fs: &mut FileSystem<Vec<u8>>) -> Vec<u32> {
    let root = fs.superblock.root_inode;
    let mut nodes = Vec::new();
    for i in 0..32 {
        nodes.push(
            fs.create_dir_entry(root, file_inode(), format!("my_file_{i}"))
                .expect("create directory entry"),
        );
    }
    nodes
}

#[test]
fn create_gives_named_filesystem_with_root() {
    let mut fs = FileSystem::create(300, "My Filesystem").expect("create");
    assert_eq!(fs.superblock.get_name(), "My Filesystem");
    assert_ne!(fs.superblock.root_inode, 0);
    assert_eq!(fs.superblock.total_blocks, 300);
    let image = fs.get_disk().to_vec().expect("image");
    assert_eq!(image.len(), 300 * 4096);
    assert_eq!(&image[4096..4104], b"SFs sblk");
}

#[test]
fn thirty_two_files_are_listed_in_order() {
    let mut fs = FileSystem::create(300, "My Filesystem").expect("create");
    let nodes = with_32_files(&mut fs);
    let listed = list_root(&mut fs);
    assert_eq!(listed.len(), 32);
    for i in 0..32 {
        assert_eq!(listed[i].0, format!("my_file_{i}"));
        assert_eq!(listed[i].1, nodes[i]);
    }
}

#[test]
fn deleting_the_files_gives_their_inode_block_back() {
    let mut fs = FileSystem::create(300, "My Filesystem").expect("create");
    let nodes = with_32_files(&mut fs);
    let table = nodes[31] / 32;
    assert_ne!(table, fs.superblock.root_inode / 32);
    for node in nodes.iter() {
        let mut inode = fs.read_inode(*node).expect("read inode");
        assert_eq!(inode.hardlinks, 1);
        inode.delete(*node, &mut fs).expect("delete");
    }
    for node in nodes.iter() {
        assert_eq!(fs.read_inode(*node).expect("read inode").hardlinks, 0);
    }
    // The entries of the directory are left as they are: they still name the slots.
    let listed = list_root(&mut fs);
    assert_eq!(listed.len(), 32);
    for i in 0..32 {
        assert_eq!(listed[i], (format!("my_file_{i}"), nodes[i]));
    }
    assert_eq!(fs.allocate_block(false).expect("allocate"), table);
}

#[test]
fn entries_that_are_marked_free_are_not_listed() {
    let mut fs = FileSystem::create(300, "My Filesystem").expect("create");
    let nodes = with_32_files(&mut fs);
    let root = fs.superblock.root_inode;
    for (i, node) in nodes.iter().enumerate() {
        let mut inode = fs.read_inode(*node).expect("read inode");
        inode.delete(*node, &mut fs).expect("delete");
        let free = DirEntry::create(0, format!("my_file_{i}")).expect("entry");
        let mut dir = fs.read_inode(root).expect("root inode");
        assert_eq!(dir.write_dir_entry(&mut fs, &free, Some(i as u32), root).expect("write"), i as u32);
    }
    assert_eq!(list_root(&mut fs), Vec::new());
    assert_eq!(fs.allocate_block(false).expect("allocate"), nodes[31] / 32);
}

#[test]
fn file_of_10000_bytes_reads_back() {
    let mut fs = FileSystem::create(300, "My Filesystem").expect("create");
    let root = fs.superblock.root_inode;
    let nbr = fs.create_dir_entry(root, file_inode(), "data".to_string()).expect("create file");
    let mut inode = fs.read_inode(nbr).expect("read inode");
    let buf: Vec<u8> = (0..10_000u32).map(|i| (i * 7 + i / 251) as u8).collect();
    inode.file_write(&buf, &mut fs, nbr).expect("write");
    assert_eq!(inode.meta, 1808);
    for i in 0..3 {
        assert_ne!(inode.block_pointers[i], 0);
    }
    for i in 3..10 {
        assert_eq!(inode.block_pointers[i], 0);
    }
    assert_eq!(inode.singly_indirect_block_pointer, 0);
    assert_eq!(inode.doubly_indirect_block_pointer, 0);
    let mut stored = fs.read_inode(nbr).expect("read inode");
    assert_eq!(stored.meta, 1808);
    assert_eq!(stored.block_pointers, inode.block_pointers);
    assert_eq!(read_entire_inode(&mut stored, &mut fs).expect("read"), buf);
}

#[test]
fn entry_names_must_have_1_to_254_bytes() {
    let mut fs = FileSystem::create(300, "My Filesystem").expect("create");
    let root = fs.superblock.root_inode;
    assert!(matches!(
        fs.create_dir_entry(root, file_inode(), String::new()),
        Err(FsError::NameTooLong)
    ));
    assert!(matches!(
        fs.create_dir_entry(root, file_inode(), "x".repeat(256)),
        Err(FsError::NameTooLong)
    ));
    assert!(matches!(DirEntry::create(7, String::new()), Err(FsError::NameTooLong)));
    assert!(matches!(DirEntry::create(7, "x".repeat(256)), Err(FsError::NameTooLong)));
    assert!(matches!(DirEntry::create(7, "x".repeat(255)), Err(FsError::NameTooLong)));
    assert!(DirEntry::create(7, "x".repeat(254)).is_ok());
}

#[test]
fn device_without_signature_is_refused() {
    let disk = Disk::new_virtual(8);
    assert!(matches!(FileSystem::from_disk(disk), Err(FsError::InvalidSignature)));
    let mut image = vec![0u8; 8 * 4096];
    image[4096..4104].copy_from_slice(b"SFs sblX");
    assert!(matches!(FileSystem::from_disk(Disk::new(image)), Err(FsError::InvalidSignature)));
}
