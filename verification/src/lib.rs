//! A block filesystem over a byte-addressed device: a bitmap allocator, inodes
//! with direct, singly and doubly indirect blocks, directories of packed entries,
//! and a superblock that ties them together.
//!
//! The operations are stated against a model of the filesystem, `fs::FsState`: the
//! bytes of the device and the superblock in memory. On a reliable device each
//! operation leaves what the model says. What the model amounts to on a
//! well-formed filesystem is proved in `allocation`, `tree`, `pruning`, `files`,
//! `listing` and `removal`, and when an operation that takes blocks succeeds in
//! `allocation` and `growth`.

pub mod allocation;
pub mod codec;
pub mod directory;
pub mod disk;
pub mod files;
pub mod fs;
pub mod growth;
pub mod inode;
pub mod listing;
pub mod pruning;
pub mod removal;
pub mod std_calls;
pub mod superblock;
pub mod tree;
