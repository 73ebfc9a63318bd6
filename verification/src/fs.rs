//! The filesystem: the block allocator and its bitmaps, and the operations that tie
//! superblock, inodes and directories together.

use crate::codec::{span, splice, zeros};
use crate::directory::{DirEntry, Entry};
use crate::disk::{in_range, Disk, DiskError, IO};
use crate::inode::{union_bits, Inode, InodeType, Permission, PermissionsAndType};
use crate::superblock::Superblock;
use crate::superblock::segments;
use crate::superblock::unix_time;
use vstd::array::array_as_slice;
use vstd::prelude::*;
use vstd::string::StringSliceAdditionalSpecFns;
use vstd::utf8::encode_utf8;

verus! {

/// What an operation of the filesystem fails with.
#[derive(Debug)]
pub enum FsError {
    DiskError(DiskError),
    InvalidSignature,
    NameTooLong,
    InvalidBlock,
    NoEntry,
    NoSpace,
    FailSuperblockWrite,
}

impl From<DiskError> for FsError {
    fn from(value: DiskError) -> (e: Self) {
        FsError::DiskError(value)
    }
}

impl vstd::std_specs::convert::FromSpecImpl<DiskError> for FsError {
    open spec fn obeys_from_spec() -> bool {
        true
    }

    open spec fn from_spec(value: DiskError) -> Self {
        FsError::DiskError(value)
    }
}

/// The result of a device operation as a result of the filesystem.
pub open spec fn lifted<T>(r: Result<T, DiskError>) -> Result<T, FsError> {
    match r {
        Ok(v) => Ok(v),
        Err(e) => Err(FsError::DiskError(e)),
    }
}

/// The result of a device operation as a result of the filesystem.
pub(crate) fn lift<T>(r: Result<T, DiskError>) -> (l: Result<T, FsError>)
    ensures
        l == lifted(r),
{
    match r {
        Ok(v) => Ok(v),
        Err(e) => Err(FsError::DiskError(e)),
    }
}

/// The number of blocks of a segment: as many as a bitmap of 2048 bytes has bits.
pub const BLOCKS_PER_BLOCKARRAY: u32 = 16384;

/// The number of bytes of a stored inode.
pub const INODE_SIZE: usize = 128;

/// The number of bytes of a block.
pub const BLOCK_SIZE: usize = 4096;

/// The number of inodes that a block holds.
pub const INODES_PER_BLOCK: u32 = 32;

/// What the bitmaps of a segment say of a block.
#[derive(Debug, Clone, Copy, PartialEq, Eq, Structural)]
pub enum BlockArrayEntry {
    BlockArrayDescriptor,
    Unused,
    InodeBlock,
    Allocated,
}

/// Whether bit `k` of `byte` is set.
pub open spec fn bit(byte: u8, k: u32) -> bool {
    byte & (1u8 << k) != 0
}

/// `byte` with bit `k` set or cleared.
pub open spec fn with_bit(byte: u8, k: u32, on: bool) -> u8 {
    if on {
        byte | (1u8 << k)
    } else {
        byte & !(1u8 << k)
    }
}

/// Setting or clearing a bit makes that bit read as it was set, and leaves the
/// other seven as they were.
pub proof fn lemma_with_bit(byte: u8, k: u32, on: bool, j: u32)
    requires
        k < 8,
        j < 8,
    ensures
        bit(with_bit(byte, k, on), j) == if j == k {
            on
        } else {
            bit(byte, j)
        },
{
    assert(k < 8 && j < 8 ==> ((byte | (1u8 << k)) & (1u8 << j) != 0) == if j == k {
        true
    } else {
        byte & (1u8 << j) != 0
    }) by (bit_vector);
    assert(k < 8 && j < 8 ==> ((byte & !(1u8 << k)) & (1u8 << j) != 0) == if j == k {
        false
    } else {
        byte & (1u8 << j) != 0
    }) by (bit_vector);
}

/// The address of the byte of segment `segment`'s usage bitmap that holds the bit
/// of the block with index `index`. The byte of the kind bitmap lies 2048 bytes on.
pub open spec fn usage_addr(segment: u32, index: u32) -> int {
    segment * 16384 * 4096 + index / 8
}

/// Whether the two bitmap bytes for `index` in segment `segment` lie on a device of
/// `size` bytes.
pub open spec fn entry_on_device(size: nat, segment: u32, index: u32) -> bool {
    usage_addr(segment, index) + 2048 < size
}

/// What the two bitmaps of segment `segment` say of the block with index `index`.
pub open spec fn entry_at(img: Seq<u8>, segment: u32, index: u32) -> BlockArrayEntry {
    let at = usage_addr(segment, index);
    if index == 0 {
        BlockArrayEntry::BlockArrayDescriptor
    } else if !bit(img[at], index % 8) {
        BlockArrayEntry::Unused
    } else if bit(img[at + 2048], index % 8) {
        BlockArrayEntry::InodeBlock
    } else {
        BlockArrayEntry::Allocated
    }
}

/// What reading the entry of the block with index `index` of segment `segment` gives
/// on a reliable device that holds `img`. The byte of the kind bitmap is read only
/// where the usage bitmap says that the block is in use.
pub open spec fn read_entry(img: Seq<u8>, segment: u32, index: u32) -> Result<
    BlockArrayEntry,
    DiskError,
> {
    let at = usage_addr(segment, index);
    if index == 0 {
        Ok(BlockArrayEntry::BlockArrayDescriptor)
    } else if at >= img.len() {
        Err(DiskError::NotEnoughSpace)
    } else if !bit(img[at], index % 8) {
        Ok(BlockArrayEntry::Unused)
    } else if at + 2048 >= img.len() {
        Err(DiskError::NotEnoughSpace)
    } else {
        Ok(entry_at(img, segment, index))
    }
}

/// The kind that is recorded where `kind` is asked for at `index`: the first block
/// of a segment is always the descriptor, and no other block ever is.
pub open spec fn coerced(index: u32, kind: BlockArrayEntry) -> BlockArrayEntry {
    if index == 0 {
        BlockArrayEntry::BlockArrayDescriptor
    } else if kind == BlockArrayEntry::BlockArrayDescriptor {
        BlockArrayEntry::Allocated
    } else {
        kind
    }
}

/// The image after `kind` was recorded for the block with index `index` of segment
/// `segment`. An index outside the segment, or one whose bitmap bytes lie outside the
/// device, leaves the image as it is.
pub open spec fn with_entry(img: Seq<u8>, segment: u32, index: u32, kind: BlockArrayEntry) -> Seq<
    u8,
> {
    let at = usage_addr(segment, index);
    let k = coerced(index, kind);
    if index >= 16384 || !entry_on_device(img.len(), segment, index) {
        img
    } else {
        img.update(at, with_bit(img[at], index % 8, k != BlockArrayEntry::Unused)).update(
            at + 2048,
            with_bit(img[at + 2048], index % 8, k == BlockArrayEntry::InodeBlock),
        )
    }
}

/// After a kind was recorded for a block, the bitmaps say that kind of it: the
/// descriptor for the first block of a segment whatever was asked for, and else the
/// kind asked for, with `Allocated` in place of the descriptor.
pub proof fn lemma_recorded_entry_is_read(
    img: Seq<u8>,
    segment: u32,
    index: u32,
    kind: BlockArrayEntry,
)
    requires
        index < 16384,
        entry_on_device(img.len(), segment, index),
    ensures
        entry_at(with_entry(img, segment, index, kind), segment, index) == coerced(index, kind),
{
    let at = usage_addr(segment, index);
    let k = coerced(index, kind);
    lemma_with_bit(img[at], index % 8, k != BlockArrayEntry::Unused, index % 8);
    lemma_with_bit(img[at + 2048], index % 8, k == BlockArrayEntry::InodeBlock, index % 8);
}

/// Recording `Unused` for a block a second time changes nothing.
pub proof fn lemma_unused_twice(img: Seq<u8>, segment: u32, index: u32)
    requires
        index < 16384,
    ensures
        with_entry(
            with_entry(img, segment, index, BlockArrayEntry::Unused),
            segment,
            index,
            BlockArrayEntry::Unused,
        ) == with_entry(img, segment, index, BlockArrayEntry::Unused),
{
    let at = usage_addr(segment, index);
    let once = with_entry(img, segment, index, BlockArrayEntry::Unused);
    let k: u32 = index % 8;
    if entry_on_device(img.len(), segment, index) {
        let u = img[at];
        let t = img[at + 2048];
        assert(k < 8 ==> (u & !(1u8 << k)) & !(1u8 << k) == u & !(1u8 << k)) by (bit_vector);
        assert(k < 8 ==> (u | (1u8 << k)) | (1u8 << k) == u | (1u8 << k)) by (bit_vector);
        assert(k < 8 ==> (t & !(1u8 << k)) & !(1u8 << k) == t & !(1u8 << k)) by (bit_vector);
        assert(with_entry(once, segment, index, BlockArrayEntry::Unused) =~= once);
    }
}

/// Recording a kind for one block leaves what the bitmaps say of every other block.
pub proof fn lemma_other_entries_kept(
    img: Seq<u8>,
    segment: u32,
    index: u32,
    kind: BlockArrayEntry,
    other_segment: u32,
    other_index: u32,
)
    requires
        other_index < 16384,
        other_segment != segment || other_index != index,
        entry_on_device(img.len(), other_segment, other_index),
    ensures
        entry_at(with_entry(img, segment, index, kind), other_segment, other_index) == entry_at(
            img,
            other_segment,
            other_index,
        ),
{
    let at = usage_addr(segment, index);
    let k = coerced(index, kind);
    if index < 16384 && entry_on_device(img.len(), segment, index) && other_segment == segment
        && other_index / 8 == index / 8 {
        lemma_with_bit(img[at], index % 8, k != BlockArrayEntry::Unused, other_index % 8);
        lemma_with_bit(
            img[at + 2048],
            index % 8,
            k == BlockArrayEntry::InodeBlock,
            other_index % 8,
        );
    }
}

/// The allocation bitmaps of one segment of 16384 blocks, on the device they are
/// stored on. The first field is the device, the second the segment's number.
pub struct BlockArrayDescriptor<'a, D: IO>(pub &'a mut Disk<D>, pub u32);

impl<'a, D: IO> BlockArrayDescriptor<'a, D> {
    /// The bitmaps of segment `idx` of `disk`, as they are.
    pub fn from_disk(disk: &'a mut Disk<D>, idx: u32) -> (d: Self)
        ensures
            *d.0 == *old(disk),
            *final(d.0) == *final(disk),
            d.1 == idx,
    {
        BlockArrayDescriptor(disk, idx)
    }

    /// The bitmaps of segment `idx` of `disk`, with the segment's first block
    /// recorded as its descriptor.
    pub fn create(disk: &'a mut Disk<D>, idx: u32) -> (r: Result<Self, DiskError>)
        ensures
            match r {
                Ok(d) => d.1 == idx && *final(d.0) == *final(disk) && d.0.reliable() == old(
                    disk,
                ).reliable() && d.0@ == with_entry(
                    old(disk)@,
                    idx,
                    0,
                    BlockArrayEntry::BlockArrayDescriptor,
                ) && entry_on_device(old(disk)@.len(), idx, 0),
                Err(e) => final(disk).reliable() == old(disk).reliable() && final(disk)@.len()
                    == old(disk)@.len() && (!old(disk).reliable() || (e is NotEnoughSpace
                    && final(disk)@ == old(disk)@)),
            },
            old(disk).reliable() ==> (r is Ok <==> entry_on_device(old(disk)@.len(), idx, 0)),
    {
        let mut value = BlockArrayDescriptor(disk, idx);
        value.set(0, BlockArrayEntry::BlockArrayDescriptor)?;
        Ok(value)
    }

    /// What the bitmaps say of the block with index `index`.
    pub fn get(&mut self, index: u32) -> (r: Result<BlockArrayEntry, DiskError>)
        ensures
            final(self).0@ == old(self).0@,
            final(self).0.reliable() == old(self).0.reliable(),
            *final(final(self).0) == *final(old(self).0),
            final(self).1 == old(self).1,
            r matches Ok(e) ==> e == entry_at(old(self).0@, old(self).1, index),
            old(self).0.reliable() || r is Ok ==> r == read_entry(old(self).0@, old(self).1, index),
    {
        if index == 0 {
            return Ok(BlockArrayEntry::BlockArrayDescriptor);
        }
        let at: u64 = self.1 as u64 * 16384 * 4096 + (index / 8) as u64;
        let mask: u8 = 1u8 << (index % 8);
        let usage = self.0.read_u8(at)?;
        if usage & mask == 0 {
            return Ok(BlockArrayEntry::Unused);
        }
        let kind = self.0.read_u8(at + 2048)?;
        if kind & mask != 0 {
            Ok(BlockArrayEntry::InodeBlock)
        } else {
            Ok(BlockArrayEntry::Allocated)
        }
    }

    /// Records `typ` for the block with index `index`. An index outside the segment
    /// is ignored.
    pub fn set(&mut self, index: u32, typ: BlockArrayEntry) -> (r: Result<(), DiskError>)
        ensures
            final(self).0.reliable() == old(self).0.reliable(),
            final(self).0@.len() == old(self).0@.len(),
            *final(final(self).0) == *final(old(self).0),
            final(self).1 == old(self).1,
            match r {
                Ok(_) => final(self).0@ == with_entry(old(self).0@, old(self).1, index, typ) && (
                index >= 16384 || entry_on_device(old(self).0@.len(), old(self).1, index)),
                Err(e) => !old(self).0.reliable() || (e is NotEnoughSpace && final(self).0@ == old(
                    self,
                ).0@),
            },
            old(self).0.reliable() ==> (r is Ok <==> index >= 16384 || entry_on_device(
                old(self).0@.len(),
                old(self).1,
                index,
            )),
    {
        if index >= BLOCKS_PER_BLOCKARRAY {
            return Ok(());
        }
        let kind = if index == 0 {
            BlockArrayEntry::BlockArrayDescriptor
        } else if typ == BlockArrayEntry::BlockArrayDescriptor {
            BlockArrayEntry::Allocated
        } else {
            typ
        };
        let at: u64 = self.1 as u64 * 16384 * 4096 + (index / 8) as u64;
        let mask: u8 = 1u8 << (index % 8);
        let mut usage_bitmap = self.0.read_u8(at)?;
        let mut type_bitmap = self.0.read_u8(at + 2048)?;
        if kind != BlockArrayEntry::Unused {
            usage_bitmap = usage_bitmap | mask;
        } else {
            usage_bitmap = usage_bitmap & !mask;
        }
        if kind == BlockArrayEntry::InodeBlock {
            type_bitmap = type_bitmap | mask;
        } else {
            type_bitmap = type_bitmap & !mask;
        }
        let ghost img0 = self.0@;
        self.0.write_u8(at, usage_bitmap)?;
        let ghost img1 = self.0@;
        assert(img1 =~= img0.update(at as int, usage_bitmap));
        self.0.write_u8(at + 2048, type_bitmap)?;
        assert(self.0@ =~= img1.update(at + 2048, type_bitmap));
        Ok(())
    }
}

/// One less than `n`, or zero.
pub open spec fn one_less(n: u32) -> u32 {
    if n > 0 {
        (n - 1) as u32
    } else {
        0
    }
}

/// One more than `n`, or the greatest number.
pub open spec fn one_more(n: u32) -> u32 {
    if n < u32::MAX {
        (n + 1) as u32
    } else {
        n
    }
}

/// What a filesystem is made of: the bytes on its device, and the superblock as
/// the filesystem holds it in memory.
pub struct FsState {
    pub image: Seq<u8>,
    pub superblock: Superblock,
}

/// The result of an operation that left a filesystem with the bytes `image` on its
/// device and with `superblock` in memory.
pub open spec fn outcome<T>(image: Seq<u8>, superblock: Superblock, result: Result<T, FsError>) -> (
    FsState,
    Result<T, FsError>,
) {
    (FsState { image, superblock }, result)
}

/// The first block from `from` on and below `total` that the bitmaps of `img` say
/// is unused, as a scan over the entries finds it on a reliable device. The scan
/// fails where an entry that it has to read lies outside the device.
pub open spec fn first_unused(img: Seq<u8>, from: int, total: int) -> Result<Option<u32>, DiskError>
    decreases total - from,
{
    if from >= total || from < 0 || from > u32::MAX {
        Ok(None)
    } else {
        match read_entry(img, (from / 16384) as u32, (from % 16384) as u32) {
            Err(e) => Err(e),
            Ok(BlockArrayEntry::Unused) => Ok(Some(from as u32)),
            Ok(_) => first_unused(img, from + 1, total),
        }
    }
}

impl FsState {
    /// What the bitmaps say of block `block`.
    pub open spec fn entry(self, block: u32) -> BlockArrayEntry {
        entry_at(self.image, block / 16384, block % 16384)
    }

    /// The contents of block `block`.
    pub open spec fn block(self, block: u32) -> Seq<u8> {
        span(self.image, block * 4096, 4096)
    }

    /// The number of blocks below `n` that the bitmaps say are unused.
    pub open spec fn unused_below(self, n: int) -> int
        decreases n,
    {
        if n <= 0 {
            0
        } else {
            self.unused_below(n - 1) + if self.entry((n - 1) as u32) == BlockArrayEntry::Unused {
                1int
            } else {
                0int
            }
        }
    }

    /// The superblock counts the blocks that the bitmaps say are unused, and where
    /// it names an earliest free block, the bitmaps say of no block below it that
    /// it is unused.
    #[verifier::opaque]
    pub open spec fn counted(self) -> bool {
        &&& self.superblock.total_unused == self.unused_below(self.superblock.total_blocks as int)
        &&& self.superblock.earliest_free != 0 ==> forall|block: u32|
            block < self.superblock.earliest_free ==> #[trigger] self.entry(block)
                != BlockArrayEntry::Unused
    }

    /// The device holds all the blocks that the superblock counts; the bitmaps say
    /// that block 1, which holds the superblock, is in use; the block that the
    /// superblock names as the earliest free one, if it names one, is the least
    /// block of the device that the bitmaps say is unused; and `total_unused` is
    /// the number of blocks that the bitmaps say are unused.
    pub open spec fn wf(self) -> bool {
        &&& self.superblock.total_blocks >= 2
        &&& self.image.len() >= self.superblock.total_blocks * 4096
        &&& self.entry(1) != BlockArrayEntry::Unused
        &&& self.superblock.earliest_free != 0 ==> {
            &&& self.superblock.earliest_free < self.superblock.total_blocks
            &&& self.entry(self.superblock.earliest_free) == BlockArrayEntry::Unused
        }
        &&& self.counted()
    }

    /// The state and result of `write_superblock` on a reliable device.
    pub open spec fn persist(self) -> (FsState, Result<(), FsError>) {
        outcome(
            splice(self.image, 4096, self.superblock.encode()),
            self.superblock,
            if in_range(self.image.len(), 4096, 82) {
                Ok(())
            } else {
                Err(FsError::FailSuperblockWrite)
            },
        )
    }

    /// The result of `read_inode` on a reliable device.
    pub open spec fn inode(self, inode_nbr: u32) -> Result<Inode, FsError> {
        if in_range(self.image.len(), (inode_nbr * 128) as u64, 128) {
            Ok(Inode::decode(span(self.image, inode_nbr * 128, 128)))
        } else {
            Err(FsError::DiskError(DiskError::NotEnoughSpace))
        }
    }

    /// The state and result of `write_inode` on a reliable device.
    pub open spec fn put_inode(self, inode_nbr: u32, inode: Inode) -> (FsState, Result<(), FsError>) {
        outcome(
            splice(self.image, inode_nbr * 128, inode.encode()),
            self.superblock,
            if in_range(self.image.len(), (inode_nbr * 128) as u64, 128) {
                Ok(())
            } else {
                Err(FsError::DiskError(DiskError::NotEnoughSpace))
            },
        )
    }

    /// The state and result of writing the 32-bit value `value` at `addr` on a
    /// reliable device.
    pub open spec fn put_u32(self, addr: int, value: u32) -> (FsState, Result<(), FsError>) {
        outcome(
            splice(self.image, addr, crate::codec::le_bytes(value as int, 4)),
            self.superblock,
            if addr + 4 <= self.image.len() {
                Ok(())
            } else {
                Err(FsError::DiskError(DiskError::NotEnoughSpace))
            },
        )
    }

    /// The state and result of zeroing block `block` on a reliable device.
    pub open spec fn clear(self, block: u32) -> (FsState, Result<(), FsError>) {
        if block % 16384 == 0 {
            (self, Err(FsError::InvalidBlock))
        } else {
            outcome(
                splice(self.image, block * 4096, zeros(4096)),
                self.superblock,
                if in_range(self.image.len(), (block * 4096) as u64, 4096) {
                    Ok(())
                } else {
                    Err(FsError::DiskError(DiskError::NotEnoughSpace))
                },
            )
        }
    }

    /// The state and result of `free_block` on a reliable device. A descriptor's
    /// block is rejected. Else the entry of the block is read; the superblock's
    /// hint moves down to the block where it lay above it, the count of unused
    /// blocks rises by one where the block was in use, and the superblock is stored
    /// where either changed it; the bitmaps record the block as unused; and the
    /// block is zeroed. The first step that fails ends the operation.
    #[verifier::opaque]
    pub open spec fn free(self, block: u32) -> (FsState, Result<(), FsError>) {
        let seen = read_entry(self.image, block / 16384, block % 16384);
        let was_used = seen is Ok && seen->Ok_0 != BlockArrayEntry::Unused;
        let moved = self.superblock.earliest_free > block;
        let hinted = if moved || was_used {
            (FsState {
                image: self.image,
                superblock: Superblock {
                    earliest_free: if moved {
                        block
                    } else {
                        self.superblock.earliest_free
                    },
                    total_unused: if was_used {
                        one_more(self.superblock.total_unused)
                    } else {
                        self.superblock.total_unused
                    },
                    ..self.superblock
                },
            }).persist()
        } else {
            (self, Ok(()))
        };
        let marked = with_entry(hinted.0.image, block / 16384, block % 16384, BlockArrayEntry::Unused);
        if block % 16384 == 0 {
            (self, Err(FsError::InvalidBlock))
        } else if seen is Err {
            (self, Err(FsError::DiskError(seen->Err_0)))
        } else if hinted.1 is Err {
            hinted
        } else if !entry_on_device(self.image.len(), block / 16384, block % 16384) {
            (hinted.0, Err(FsError::DiskError(DiskError::NotEnoughSpace)))
        } else {
            (FsState { image: marked, superblock: hinted.0.superblock }).clear(block)
        }
    }

    /// The state and result of `allocate_block` on a reliable device. The block is
    /// the one that the superblock names as the earliest free one; where it names
    /// none there is no space. The bitmaps record the block; the
    /// count of unused blocks falls by one; the next unused block above it becomes
    /// the earliest free one; the superblock is stored; and the block is zeroed.
    /// Where no block above it is unused, the superblock is stored with no earliest
    /// free block, and there is no space. The first step that fails ends the
    /// operation.
    #[verifier::opaque]
    pub open spec fn allocate(self, for_inodes: bool) -> (FsState, Result<u32, FsError>) {
        let blk = self.superblock.earliest_free;
        let taking = Superblock {
            earliest_free: 0,
            last_free: if blk == self.superblock.last_free {
                0
            } else {
                self.superblock.last_free
            },
            ..self.superblock
        };
        let taken = Superblock { total_unused: one_less(taking.total_unused), ..taking };
        let marked = with_entry(
            self.image,
            blk / 16384,
            blk % 16384,
            if for_inodes {
                BlockArrayEntry::InodeBlock
            } else {
                BlockArrayEntry::Allocated
            },
        );
        if blk == 0 {
            (self, Err(FsError::NoSpace))
        } else if !entry_on_device(self.image.len(), blk / 16384, blk % 16384) {
            outcome(self.image, taking, Err(FsError::DiskError(DiskError::NotEnoughSpace)))
        } else {
            match first_unused(marked, blk + 1, self.superblock.total_blocks as int) {
                Err(e) => outcome(marked, taken, Err(FsError::DiskError(e))),
                Ok(None) => {
                    let stored = (FsState { image: marked, superblock: taken }).persist();
                    (
                        stored.0,
                        if stored.1 is Ok {
                            Err(FsError::NoSpace)
                        } else {
                            Err(FsError::FailSuperblockWrite)
                        },
                    )
                },
                Ok(Some(next)) => {
                    let stored = (FsState {
                        image: marked,
                        superblock: Superblock {
                            earliest_free: next,
                            earliest_inode_space: if for_inodes {
                                (blk * 32) as u32
                            } else {
                                taken.earliest_inode_space
                            },
                            ..taken
                        },
                    }).persist();
                    let cleared = stored.0.clear(blk);
                    if stored.1 is Err {
                        (stored.0, Err(FsError::FailSuperblockWrite))
                    } else {
                        (
                            cleared.0,
                            match cleared.1 {
                                Ok(_) => Ok(blk),
                                Err(e) => Err(e),
                            },
                        )
                    }
                },
            }
        }
    }

    /// The first slot from `from` on and below `upto` whose stored inode has no
    /// hard link, as a scan over the slots finds it on a reliable device. The scan
    /// fails where a slot that it has to read lies outside the device.
    pub open spec fn free_slot(self, from: int, upto: int) -> Result<Option<u32>, FsError>
        decreases upto - from,
    {
        if from >= upto || from < 0 || from > u32::MAX {
            Ok(None)
        } else {
            match self.inode(from as u32) {
                Err(e) => Err(e),
                Ok(inode) => if inode.hardlinks == 0 {
                    Ok(Some(from as u32))
                } else {
                    self.free_slot(from + 1, upto)
                },
            }
        }
    }

    /// The state and result of picking the slot for a new inode on a reliable
    /// device: the first free slot among the 32 from the superblock's hint on,
    /// where the hint names a block other than blocks 0 and 1; else the first slot
    /// of a newly allocated inode block.
    pub open spec fn take_slot(self) -> (FsState, Result<u32, FsError>) {
        let hint = self.superblock.earliest_inode_space;
        let hinted = if hint >= 64 {
            self.free_slot(hint as int, hint + 32)
        } else {
            Ok(None)
        };
        let allocated = self.allocate(true);
        match hinted {
            Err(e) => (self, Err(e)),
            Ok(Some(slot)) => (self, Ok(slot)),
            Ok(None) => (
                allocated.0,
                match allocated.1 {
                    Ok(block) => Ok((block * 32) as u32),
                    Err(e) => Err(e),
                },
            ),
        }
    }

    /// The state and result of `create_inode` on a reliable device: the inode is
    /// written to the slot picked for it.
    pub open spec fn create_inode(self, inode: Inode) -> (FsState, Result<u32, FsError>) {
        let picked = self.take_slot();
        match picked.1 {
            Err(e) => (picked.0, Err(e)),
            Ok(slot) => {
                let written = picked.0.put_inode(slot, inode);
                (
                    written.0,
                    match written.1 {
                        Ok(_) => Ok(slot),
                        Err(e) => Err(e),
                    },
                )
            },
        }
    }

    /// The state and result of `link_to_inode` on a reliable device. The inode in
    /// slot `child` gains a hard link and is stored; then the directory in slot
    /// `parent` gets an entry that gives the child the name `name`, in its first
    /// free place. An inode that has as many hard links as the field can count is
    /// rejected with `NoSpace`, and a name that is empty or has 255 bytes or more
    /// with `NameTooLong`. The first step that fails ends the operation.
    #[verifier::opaque]
    pub open spec fn link(self, parent: u32, child: u32, name: Seq<u8>) -> (
        FsState,
        Result<u32, FsError>,
    ) {
        match self.inode(child) {
            Err(e) => (self, Err(e)),
            Ok(node) => {
                let w = self.put_inode(
                    child,
                    Inode { hardlinks: (node.hardlinks + 1) as u16, ..node },
                );
                if node.hardlinks == u16::MAX {
                    (self, Err(FsError::NoSpace))
                } else if w.1 is Err {
                    (w.0, Err(w.1->Err_0))
                } else {
                    match w.0.inode(parent) {
                        Err(e) => (w.0, Err(e)),
                        Ok(dir) => {
                            let p = dir.put_entry(w.0, Entry { inode: child, name }, None, parent);
                            if name.len() == 0 || name.len() >= 255 {
                                (w.0, Err(FsError::NameTooLong))
                            } else {
                                (
                                    p.0,
                                    match p.2 {
                                        Ok(_) => Ok(child),
                                        Err(e) => Err(e),
                                    },
                                )
                            }
                        },
                    }
                }
            },
        }
    }

    /// The state and result of `create_dir_entry` on a reliable device: the inode
    /// is stored without hard links in a free slot, and then linked into the
    /// directory in slot `parent` under the name `name`.
    pub open spec fn add(self, parent: u32, child: Inode, name: Seq<u8>) -> (
        FsState,
        Result<u32, FsError>,
    ) {
        let c = self.create_inode(Inode { hardlinks: 0, ..child });
        match c.1 {
            Err(e) => (c.0, Err(e)),
            Ok(slot) => c.0.link(parent, slot, name),
        }
    }
}

/// The image `img` with the descriptors of the segments from `i` on and below
/// `count` recorded in their bitmaps, and, in segment 0, block 1 recorded as
/// allocated.
pub open spec fn with_descriptors(img: Seq<u8>, i: int, count: int) -> Seq<u8>
    decreases count - i,
{
    if i >= count || i < 0 || i > u32::MAX {
        img
    } else {
        let own = with_entry(img, i as u32, 0, BlockArrayEntry::BlockArrayDescriptor);
        with_descriptors(
            if i == 0 {
                with_entry(own, 0, 1, BlockArrayEntry::Allocated)
            } else {
                own
            },
            i + 1,
            count,
        )
    }
}

/// The inode of the root directory of a filesystem made at time `now`: a
/// directory with the permissions `rwxrwxr-x`, one hard link and no blocks.
pub open spec fn root_directory(now: u64) -> Inode {
    Inode {
        type_and_permission: PermissionsAndType(0x41fd),
        uid: 0,
        gid: 0,
        modification_time: now,
        creation_time: now,
        hardlinks: 1,
        block_pointers: [0u32, 0u32, 0u32, 0u32, 0u32, 0u32, 0u32, 0u32, 0u32, 0u32],
        singly_indirect_block_pointer: 0,
        doubly_indirect_block_pointer: 0,
        meta: 0,
    }
}

/// The filesystem that `create` makes at time `now`. Fewer than 3 blocks are
/// rejected, and a name of more than 32 bytes. Else the device holds zeros but
/// for the superblock in block 1, the descriptors' bitmaps, and the inode of the
/// root directory in a newly allocated inode block; the superblock names that
/// inode as the root, and is stored again at the end.
pub open spec fn created(num_blocks: u32, name: Seq<u8>, now: u64) -> Result<FsState, FsError> {
    let sb = Superblock::fresh(name, num_blocks, now);
    let formatted = FsState {
        image: with_descriptors(
            splice(zeros((num_blocks * 4096) as nat), 4096, sb.encode()),
            0,
            segments(num_blocks),
        ),
        superblock: sb,
    };
    let rooted = formatted.create_inode(root_directory(now));
    let stored = (FsState {
        image: rooted.0.image,
        superblock: Superblock { root_inode: rooted.1->Ok_0, ..rooted.0.superblock },
    }).persist();
    if num_blocks < 3 {
        Err(FsError::DiskError(DiskError::NotEnoughSpace))
    } else if name.len() > 32 {
        Err(FsError::NameTooLong)
    } else if rooted.1 is Err {
        Err(rooted.1->Err_0)
    } else if stored.1 is Err {
        Err(stored.1->Err_0)
    } else {
        Ok(stored.0)
    }
}

/// A filesystem: its device, and its superblock as it is held in memory.
pub struct FileSystem<D: IO> {
    pub superblock: Superblock,
    pub disk: Disk<D>,
}

impl<D: IO> View for FileSystem<D> {
    type V = FsState;

    open spec fn view(&self) -> FsState {
        FsState { image: self.disk@, superblock: self.superblock }
    }
}

impl<D: IO> FileSystem<D> {
    /// Whether the device never reports an error and moves every byte that lies
    /// within it.
    pub open spec fn reliable(&self) -> bool {
        self.disk.reliable()
    }

    /// The filesystem on `disk`: its superblock is read from block 1.
    pub fn from_disk(disk: Disk<D>) -> (r: Result<Self, FsError>)
        ensures
            disk.reliable() || !(r matches Err(FsError::DiskError(_))) ==> match Superblock::stored_at(
                disk@,
                4096,
            ) {
                Ok(sb) => r is Ok && r->Ok_0@ == (FsState { image: disk@, superblock: sb })
                    && r->Ok_0.reliable() == disk.reliable(),
                Err(e) => r is Err && r->Err_0 == e,
            },
    {
        let mut disk = disk;
        let superblock = Superblock::read(&mut disk, 4096)?;
        Ok(FileSystem { disk, superblock })
    }

    /// The device of the filesystem.
    pub fn get_disk(&mut self) -> (disk: &mut Disk<D>)
        ensures
            *disk == old(self).disk,
            *final(self) == (FileSystem { superblock: old(self).superblock, disk: *final(disk) }),
    {
        &mut self.disk
    }

    /// The address of block `block_id`. Fails for the block of a descriptor.
    pub fn pointer(block_id: u32) -> (r: Result<u64, FsError>)
        ensures
            r == if block_id % 16384 == 0 {
                Err::<u64, FsError>(FsError::InvalidBlock)
            } else {
                Ok::<u64, FsError>((block_id * 4096) as u64)
            },
    {
        if block_id % BLOCKS_PER_BLOCKARRAY == 0 {
            Err(FsError::InvalidBlock)
        } else {
            Ok(block_id as u64 * 4096)
        }
    }

    /// Reads the inode in slot `inode_nbr`.
    pub fn read_inode(&mut self, inode_nbr: u32) -> (r: Result<Inode, FsError>)
        ensures
            final(self)@ == old(self)@,
            final(self).reliable() == old(self).reliable(),
            old(self).reliable() || r is Ok ==> r == old(self)@.inode(inode_nbr),
    {
        let bytes = lift(self.disk.read_bytes(inode_nbr as u64 * 128, 128))?;
        Ok(Inode::from_bytes(bytes.as_slice()))
    }

    /// Writes `inode` to slot `inode_nbr`.
    pub fn write_inode(&mut self, inode_nbr: u32, inode: &Inode) -> (r: Result<(), FsError>)
        ensures
            final(self).reliable() == old(self).reliable(),
            final(self).superblock == old(self).superblock,
            final(self)@.image.len() == old(self)@.image.len(),
            old(self).reliable() || r is Ok ==> final(self)@ == old(self)@.put_inode(
                inode_nbr,
                *inode,
            ).0 && r == old(self)@.put_inode(inode_nbr, *inode).1,
    {
        let bytes = inode.to_bytes();
        lift(self.disk.write_exact(inode_nbr as u64 * 128, bytes.as_slice()))
    }

    /// Stores the superblock in block 1.
    pub fn write_superblock(&mut self) -> (r: Result<(), FsError>)
        ensures
            final(self).reliable() == old(self).reliable(),
            final(self).superblock == old(self).superblock,
            final(self)@.image.len() == old(self)@.image.len(),
            r is Err ==> r == Err::<(), FsError>(FsError::FailSuperblockWrite),
            old(self).reliable() || r is Ok ==> final(self)@ == old(self)@.persist().0 && r == old(
                self,
            )@.persist().1,
    {
        let bytes = self.superblock.to_bytes();
        match self.disk.write_exact(4096, bytes.as_slice()) {
            Err(_) => Err(FsError::FailSuperblockWrite),
            Ok(_) => Ok(()),
        }
    }

    /// Fills block `blk_id` with zeros. Fails for the block of a descriptor.
    fn clear_block(&mut self, blk_id: u32) -> (r: Result<(), FsError>)
        ensures
            final(self).reliable() == old(self).reliable(),
            final(self).superblock == old(self).superblock,
            final(self)@.image.len() == old(self)@.image.len(),
            old(self).reliable() || r is Ok ==> final(self)@ == old(self)@.clear(blk_id).0 && r
                == old(self)@.clear(blk_id).1,
    {
        let space: Vec<u8> = vec![0u8; 4096];
        assert(space@ =~= zeros(4096));
        let addr = FileSystem::<D>::pointer(blk_id)?;
        lift(self.disk.write_exact(addr, space.as_slice()))
    }

    /// Gives block `block_id` back: the bitmaps record it as unused, the count of
    /// unused blocks rises where it was in use, and it is zeroed. The block of a
    /// descriptor is rejected, and nothing changes.
    pub fn free_block(&mut self, block_id: u32) -> (r: Result<(), FsError>)
        ensures
            final(self).reliable() == old(self).reliable(),
            final(self)@.image.len() == old(self)@.image.len(),
            block_id % 16384 == 0 ==> r == Err::<(), FsError>(FsError::InvalidBlock) && final(self)@
                == old(self)@,
            old(self).reliable() || r is Ok ==> final(self)@ == old(self)@.free(block_id).0 && r
                == old(self)@.free(block_id).1,
    {
        reveal(FsState::free);
        if block_id % BLOCKS_PER_BLOCKARRAY == 0 {
            return Err(FsError::InvalidBlock);
        }
        let seen = lift(
            BlockArrayDescriptor::from_disk(&mut self.disk, block_id / BLOCKS_PER_BLOCKARRAY).get(
                block_id % BLOCKS_PER_BLOCKARRAY,
            ),
        )?;
        let was_used = seen != BlockArrayEntry::Unused;
        let moved = self.superblock.earliest_free > block_id;
        if moved {
            self.superblock.earliest_free = block_id;
        }
        if was_used && self.superblock.total_unused < u32::MAX {
            self.superblock.total_unused = self.superblock.total_unused + 1;
        }
        if moved || was_used {
            self.write_superblock()?;
        }
        lift(
            BlockArrayDescriptor::from_disk(&mut self.disk, block_id / BLOCKS_PER_BLOCKARRAY).set(
                block_id % BLOCKS_PER_BLOCKARRAY,
                BlockArrayEntry::Unused,
            ),
        )?;
        self.clear_block(block_id)
    }

    /// The first block above `after` that the bitmaps say is unused.
    fn find_unused(&mut self, after: u32) -> (r: Result<Option<u32>, DiskError>)
        ensures
            final(self)@ == old(self)@,
            final(self).reliable() == old(self).reliable(),
            old(self).reliable() || r is Ok ==> r == first_unused(
                old(self)@.image,
                after + 1,
                old(self).superblock.total_blocks as int,
            ),
    {
        let total = self.superblock.total_blocks;
        let mut i: u32 = after;
        while i < u32::MAX && i + 1 < total
            invariant
                after <= i,
                self@ == old(self)@,
                total == self.superblock.total_blocks,
                self.reliable() == old(self).reliable(),
                first_unused(self@.image, after + 1, total as int) == first_unused(
                    self@.image,
                    i + 1,
                    total as int,
                ),
            decreases u32::MAX - i,
        {
            i += 1;
            let entry = BlockArrayDescriptor::from_disk(
                &mut self.disk,
                i / BLOCKS_PER_BLOCKARRAY,
            ).get(i % BLOCKS_PER_BLOCKARRAY)?;
            if entry == BlockArrayEntry::Unused {
                return Ok(Some(i));
            }
        }
        Ok(None)
    }

    /// Takes the earliest free block: the bitmaps record it as an inode block or as
    /// allocated, the count of unused blocks falls by one, and the block is zeroed.
    /// The next unused block above it becomes the earliest free one. Where the
    /// superblock names no earliest free block there is no space, and nothing
    /// changes. On a well-formed filesystem and a reliable device the block is
    /// taken exactly where the superblock names one and counts at least two
    /// unused blocks.
    pub fn allocate_block(&mut self, for_inodes: bool) -> (r: Result<u32, FsError>)
        requires
            for_inodes ==> old(self).superblock.earliest_free * 32 <= u32::MAX,
        ensures
            final(self).reliable() == old(self).reliable(),
            final(self)@.image.len() == old(self)@.image.len(),
            r matches Ok(block) ==> block == old(self).superblock.earliest_free,
            old(self).superblock.earliest_free == 0 ==> r == Err::<u32, FsError>(FsError::NoSpace)
                && final(self)@ == old(self)@,
            old(self).reliable() || r is Ok ==> final(self)@ == old(self)@.allocate(for_inodes).0
                && r == old(self)@.allocate(for_inodes).1,
            old(self).reliable() && old(self)@.wf() ==> (r is Ok <==> old(
                self,
            ).superblock.earliest_free != 0 && old(self).superblock.total_unused >= 2),
    {
        reveal(FsState::allocate);
        proof {
            if old(self)@.wf() {
                crate::allocation::lemma_allocate_succeeds(old(self)@, for_inodes);
            }
        }
        let blk = self.superblock.earliest_free;
        if blk == 0 {
            return Err(FsError::NoSpace);
        } else if blk == self.superblock.last_free {
            self.superblock.last_free = 0;
        }
        self.superblock.earliest_free = 0;
        lift(
            BlockArrayDescriptor::from_disk(&mut self.disk, blk / BLOCKS_PER_BLOCKARRAY).set(
                blk % BLOCKS_PER_BLOCKARRAY,
                if for_inodes {
                    BlockArrayEntry::InodeBlock
                } else {
                    BlockArrayEntry::Allocated
                },
            ),
        )?;
        if self.superblock.total_unused > 0 {
            self.superblock.total_unused = self.superblock.total_unused - 1;
        }
        match lift(self.find_unused(blk))? {
            Some(next) => {
                self.superblock.earliest_free = next;
                if for_inodes {
                    self.superblock.earliest_inode_space = blk * INODES_PER_BLOCK;
                }
                self.write_superblock()?;
                self.clear_block(blk)?;
                Ok(blk)
            },
            None => {
                self.write_superblock()?;
                Err(FsError::NoSpace)
            },
        }
    }

    /// The slot for a new inode.
    fn get_inode_physical(&mut self) -> (r: Result<u32, FsError>)
        requires
            old(self).superblock.earliest_free * 32 <= u32::MAX,
        ensures
            final(self).reliable() == old(self).reliable(),
            final(self)@.image.len() == old(self)@.image.len(),
            old(self).reliable() || r is Ok ==> final(self)@ == old(self)@.take_slot().0 && r == old(
                self,
            )@.take_slot().1,
    {
        let hint = self.superblock.earliest_inode_space;
        if hint >= 64 {
            let mut i: u32 = 0;
            while i < INODES_PER_BLOCK && hint <= u32::MAX - i
                invariant
                    i <= 32,
                    hint >= 64,
                    self@ == old(self)@,
                    self.reliable() == old(self).reliable(),
                    hint == self.superblock.earliest_inode_space,
                    self@.free_slot(hint as int, hint + 32) == self@.free_slot(hint + i, hint + 32),
                decreases 32 - i,
            {
                let inode = self.read_inode(hint + i)?;
                if inode.hardlinks == 0 {
                    return Ok(hint + i);
                }
                i += 1;
            }
        }
        let block = self.allocate_block(true)?;
        Ok(block * INODES_PER_BLOCK)
    }

    /// Stores `inode` in a free slot, and returns the slot's number.
    pub fn create_inode(&mut self, inode: &Inode) -> (r: Result<u32, FsError>)
        requires
            old(self).superblock.earliest_free * 32 <= u32::MAX,
        ensures
            final(self).reliable() == old(self).reliable(),
            final(self)@.image.len() == old(self)@.image.len(),
            old(self).reliable() || r is Ok ==> final(self)@ == old(self)@.create_inode(*inode).0 && r == old(
                self,
            )@.create_inode(*inode).1,
    {
        let addr = self.get_inode_physical()?;
        self.write_inode(addr, inode)?;
        Ok(addr)
    }

    /// Gives the inode in slot `child_nbr` one more hard link, and the name `name`
    /// in the directory in slot `parent_nbr`. Returns the child's slot.
    pub fn link_to_inode(&mut self, parent_nbr: u32, child_nbr: u32, name: String) -> (r: Result<
        u32,
        FsError,
    >)
        ensures
            final(self).reliable() == old(self).reliable(),
            final(self)@.image.len() == old(self)@.image.len(),
            old(self).reliable() ==> (final(self)@, r) == old(self)@.link(
                parent_nbr,
                child_nbr,
                encode_utf8(name@),
            ),
    {
        reveal(FsState::link);
        let mut node = self.read_inode(child_nbr)?;
        if node.hardlinks == u16::MAX {
            return Err(FsError::NoSpace);
        }
        node.hardlinks = node.hardlinks + 1;
        self.write_inode(child_nbr, &node)?;
        let mut dir = self.read_inode(parent_nbr)?;
        let entry = DirEntry::create(child_nbr, name)?;
        dir.write_dir_entry(self, &entry, None, parent_nbr)?;
        Ok(child_nbr)
    }

    /// Stores `child` as a new inode, and gives it the name `name` in the directory
    /// in slot `parent_nbr`. Returns the new inode's slot.
    pub fn create_dir_entry(&mut self, parent_nbr: u32, child: Inode, name: String) -> (r: Result<
        u32,
        FsError,
    >)
        requires
            old(self).superblock.earliest_free * 32 <= u32::MAX,
        ensures
            final(self).reliable() == old(self).reliable(),
            final(self)@.image.len() == old(self)@.image.len(),
            old(self).reliable() ==> (final(self)@, r) == old(self)@.add(
                parent_nbr,
                child,
                encode_utf8(name@),
            ),
    {
        let mut child = child;
        child.hardlinks = 0;
        let child_nbr = self.create_inode(&child)?;
        self.link_to_inode(parent_nbr, child_nbr, name)
    }
}

impl FileSystem<Vec<u8>> {
    /// A new filesystem of `num_blocks` blocks with the name `fs_name`, in memory,
    /// made at time `now`. It is made where the device has at least 4 blocks and
    /// the name at most 32 bytes.
    pub fn create_at(num_blocks: u32, fs_name: &str, now: u64) -> (r: Result<Self, FsError>)
        requires
            num_blocks * 4096 <= usize::MAX,
        ensures
            match created(num_blocks, fs_name.spec_bytes(), now) {
                Ok(state) => r is Ok && r->Ok_0@ == state && r->Ok_0.reliable(),
                Err(e) => r is Err && r->Err_0 == e,
            },
            r is Ok <==> num_blocks >= 4 && fs_name.spec_bytes().len() <= 32,
    {
        proof {
            crate::allocation::lemma_create_succeeds(num_blocks, fs_name.spec_bytes(), now);
        }
        if num_blocks < 3 {
            return Err(FsError::DiskError(DiskError::NotEnoughSpace));
        }
        let superblock = Superblock::new_at(fs_name, num_blocks, now)?;
        let mut disk = Disk::new_virtual(num_blocks);
        let bytes = superblock.to_bytes();
        let w = disk.write_exact(4096, bytes.as_slice());
        assert(w is Ok);
        let count: u32 = (num_blocks - 1) / BLOCKS_PER_BLOCKARRAY + 1;
        assert(count == segments(num_blocks));
        let ghost start = disk@;
        let mut i: u32 = 0;
        while i < count
            invariant
                i <= count,
                count == segments(num_blocks),
                num_blocks >= 3,
                disk.reliable(),
                disk@.len() == num_blocks * 4096,
                with_descriptors(start, 0, count as int) == with_descriptors(
                    disk@,
                    i as int,
                    count as int,
                ),
            decreases count - i,
        {
            let made = BlockArrayDescriptor::create(&mut disk, i);
            assert(entry_on_device((num_blocks * 4096) as nat, i, 0));
            assert(entry_on_device((num_blocks * 4096) as nat, 0, 1));
            match made {
                Ok(mut blk_arr) => {
                    if i == 0 {
                        let marked = blk_arr.set(1, BlockArrayEntry::Allocated);
                        assert(marked is Ok);
                    }
                },
                Err(_) => {
                    assert(false);
                },
            }
            i += 1;
        }
        let mut fs = FileSystem { superblock, disk };
        let perms = [
            Permission::group_all(),
            Permission::user_all(),
            Permission::OtherRead,
            Permission::OtherExecute,
        ];
        let mode = PermissionsAndType::new(InodeType::Directory, array_as_slice(&perms));
        proof {
            reveal_with_fuel(union_bits, 5);
            let p = perms@;
            assert(p.drop_last().drop_last().drop_last().drop_last().len() == 0);
            assert(0x4000u16 | ((((0u16 | 0o070u16) | 0o700u16) | 0o004u16) | 0o001u16) == 0x41fdu16)
                by (bit_vector);
        }
        let inode = Inode::create(mode, 0, 0, now, 1, 0);
        let root = fs.create_inode(&inode)?;
        fs.superblock.root_inode = root;
        fs.write_superblock()?;
        Ok(fs)
    }

    /// A new filesystem of `num_blocks` blocks with the name `fs_name`, in memory,
    /// made now: at the time of the system clock in seconds since the Unix epoch,
    /// where a clock that stands before the epoch counts as standing at it. It is
    /// made where the device has at least 4 blocks and the name at most 32 bytes.
    pub fn create(num_blocks: u32, fs_name: &str) -> (r: Result<Self, FsError>)
        requires
            num_blocks * 4096 <= usize::MAX,
        ensures
            exists|now: u64|
                match #[trigger] created(num_blocks, fs_name.spec_bytes(), now) {
                    Ok(state) => r is Ok && r->Ok_0@ == state && r->Ok_0.reliable(),
                    Err(e) => r is Err && r->Err_0 == e,
                },
            r is Ok <==> num_blocks >= 4 && fs_name.spec_bytes().len() <= 32,
    {
        FileSystem::create_at(num_blocks, fs_name, unix_time())
    }
}

} // verus!
