//! What holds of the block allocator on a well-formed filesystem.

use crate::codec::{le_bytes, span, splice, zeros};
use crate::disk::{in_range, DiskError};
use crate::fs::{
    entry_at, entry_on_device, first_unused, one_less, one_more, read_entry, usage_addr,
    with_entry, BlockArrayEntry, FsError, FsState,
};
use crate::fs::{created, root_directory, with_descriptors};
use crate::fs::{lemma_other_entries_kept, lemma_recorded_entry_is_read};
use crate::inode::Inode;
use crate::superblock::Superblock;
use crate::superblock::{name_field, segments};
use vstd::prelude::*;

verus! {

/// Whether `block` is a block of the filesystem that holds data or inodes: not the
/// first block of a segment, which holds the segment's descriptor, nor block 1,
/// which holds the superblock.
pub open spec fn usable(fs: FsState, block: u32) -> bool {
    &&& 2 <= block < fs.superblock.total_blocks
    &&& block % 16384 != 0
}

/// Recording a kind in the bitmaps changes no byte outside the descriptor's block.
#[verifier::rlimit(100)]
pub proof fn lemma_with_entry_outside(
    img: Seq<u8>,
    segment: u32,
    index: u32,
    kind: BlockArrayEntry,
    at: int,
)
    requires
        0 <= at < img.len(),
        at < segment * 16384 * 4096 || segment * 16384 * 4096 + 4096 <= at,
    ensures
        with_entry(img, segment, index, kind).len() == img.len(),
        with_entry(img, segment, index, kind)[at] == img[at],
{
}

/// What the bitmaps of `img` say of block `block`.
pub open spec fn entry_of(img: Seq<u8>, block: u32) -> BlockArrayEntry {
    entry_at(img, block / 16384, block % 16384)
}

/// One where the entry is unused, and else zero.
pub open spec fn unused(entry: BlockArrayEntry) -> int {
    if entry == BlockArrayEntry::Unused {
        1
    } else {
        0
    }
}

/// Where the bitmaps say the same of every block below `n` but one, the number
/// of unused blocks below `n` differs by what they say of that one.
#[verifier::rlimit(100)]
pub proof fn lemma_unused_changed(a: FsState, b: FsState, n: int, block: u32)
    requires
        0 <= n <= u32::MAX + 1,
        forall|c: u32| c < n && c != block ==> #[trigger] b.entry(c) == a.entry(c),
    ensures
        b.unused_below(n) == a.unused_below(n) + if block < n {
            unused(b.entry(block)) - unused(a.entry(block))
        } else {
            0
        },
    decreases n,
{
    if n > 0 {
        lemma_unused_changed(a, b, n - 1, block);
        let c = (n - 1) as u32;
        if c != block {
            assert(b.entry(c) == a.entry(c));
        }
    }
}

/// There are no more unused blocks below `n` than blocks; at least one where a
/// block below `n` is unused; and fewer than `n` where one is not.
#[verifier::rlimit(100)]
pub proof fn lemma_unused_bounds(a: FsState, n: int, block: u32)
    requires
        0 <= n <= u32::MAX + 1,
    ensures
        0 <= a.unused_below(n) <= n,
        block < n && a.entry(block) == BlockArrayEntry::Unused ==> a.unused_below(n) >= 1,
        block < n && a.entry(block) != BlockArrayEntry::Unused ==> a.unused_below(n) <= n - 1,
    decreases n,
{
    if n > 0 {
        lemma_unused_bounds(a, n - 1, block);
    }
}

/// The count of unused blocks and the earliest free block stay right while the
/// bitmaps say of every block what they said, and the superblock keeps both.
#[verifier::rlimit(100)]
pub proof fn lemma_counted_kept(a: FsState, b: FsState)
    requires
        a.counted(),
        b.superblock.total_unused == a.superblock.total_unused,
        b.superblock.total_blocks == a.superblock.total_blocks,
        b.superblock.earliest_free == a.superblock.earliest_free,
        forall|c: u32| c < a.superblock.total_blocks ==> #[trigger] b.entry(c) == a.entry(c),
        a.superblock.earliest_free != 0 ==> a.superblock.earliest_free
            < a.superblock.total_blocks,
    ensures
        b.counted(),
{
    reveal(FsState::counted);
    lemma_unused_changed(a, b, a.superblock.total_blocks as int, u32::MAX);
    if a.superblock.earliest_free != 0 {
        assert forall|block: u32| block < b.superblock.earliest_free implies #[trigger] b.entry(
            block,
        ) != BlockArrayEntry::Unused by {
            assert(a.entry(block) != BlockArrayEntry::Unused);
        }
    }
}

/// The count and the earliest free block are right after an allocation.
#[verifier::spinoff_prover]
#[verifier::rlimit(100)]
proof fn lemma_allocate_counted(fs: FsState, after: FsState, block: u32, next: u32)
    requires
        fs.wf(),
        fs.superblock.earliest_free == block,
        block != 0,
        after.superblock.total_blocks == fs.superblock.total_blocks,
        after.superblock.total_unused == one_less(fs.superblock.total_unused),
        after.superblock.earliest_free == next,
        block < next < fs.superblock.total_blocks,
        after.entry(block) != BlockArrayEntry::Unused,
        forall|c: u32|
            c != block && c < fs.superblock.total_blocks ==> #[trigger] after.entry(c) == fs.entry(c),
        forall|c: u32| block < c < next ==> #[trigger] after.entry(c) != BlockArrayEntry::Unused,
    ensures
        after.counted(),
        after.superblock.total_unused == fs.superblock.total_unused - 1,
{
    reveal(FsState::counted);
    let total = fs.superblock.total_blocks as int;
    lemma_unused_bounds(fs, total, block);
    lemma_unused_changed(fs, after, total, block);
    assert forall|c: u32| c < next implies #[trigger] after.entry(c) != BlockArrayEntry::Unused by {
        if c < block {
            assert(fs.entry(c) != BlockArrayEntry::Unused);
        }
    }
}

/// The count and the earliest free block are right after a block was freed.
#[verifier::spinoff_prover]
#[verifier::rlimit(100)]
proof fn lemma_free_counted(fs: FsState, after: FsState, block: u32)
    requires
        fs.wf(),
        usable(fs, block),
        after.superblock.total_blocks == fs.superblock.total_blocks,
        after.superblock.total_unused == if fs.entry(block) != BlockArrayEntry::Unused {
            one_more(fs.superblock.total_unused)
        } else {
            fs.superblock.total_unused
        },
        after.superblock.earliest_free == if fs.superblock.earliest_free > block {
            block
        } else {
            fs.superblock.earliest_free
        },
        after.entry(block) == BlockArrayEntry::Unused,
        forall|c: u32|
            c != block && c < fs.superblock.total_blocks ==> #[trigger] after.entry(c) == fs.entry(c),
    ensures
        after.counted(),
        after.superblock.total_unused == fs.superblock.total_unused + 1 - unused(fs.entry(block)),
{
    reveal(FsState::counted);
    let total = fs.superblock.total_blocks as int;
    lemma_unused_bounds(fs, total, 1);
    lemma_unused_changed(fs, after, total, block);
    if after.superblock.earliest_free != 0 {
        assert forall|c: u32| c < after.superblock.earliest_free implies #[trigger] after.entry(c)
            != BlockArrayEntry::Unused by {
            assert(fs.entry(c) != BlockArrayEntry::Unused);
        }
    }
}

/// What the scan for an unused block finds is a block from `from` on and below
/// `total` that the bitmaps say is unused, and so no descriptor's block.
#[verifier::rlimit(100)]
pub proof fn lemma_first_unused(img: Seq<u8>, from: int, total: int)
    requires
        0 <= from,
    ensures
        first_unused(img, from, total) matches Ok(Some(block)) ==> from <= block < total
            && block % 16384 != 0 && entry_at(img, block / 16384, block % 16384)
            == BlockArrayEntry::Unused && usage_addr(block / 16384, block % 16384) < img.len(),
        first_unused(img, from, total) matches Ok(found) ==> forall|c: u32|
            from <= c && c < total && (found matches Some(block) ==> c < block) && total * 4096
                <= img.len() ==> #[trigger] entry_of(img, c) != BlockArrayEntry::Unused,
        total * 4096 <= img.len() ==> first_unused(img, from, total) is Ok,
    decreases total - from,
{
    if from < total && from <= u32::MAX {
        let seen = read_entry(img, (from / 16384) as u32, (from % 16384) as u32);
        if total * 4096 <= img.len() {
            assert(seen is Ok);
            assert(seen->Ok_0 == entry_of(img, from as u32));
        }
        match seen {
            Ok(BlockArrayEntry::Unused) => {},
            Ok(_) => {
                lemma_first_unused(img, from + 1, total);
                let found = first_unused(img, from, total);
                if found is Ok {
                    assert forall|c: u32|
                        from <= c && c < total && (found->Ok_0 matches Some(block) ==> c < block)
                            && total * 4096 <= img.len() implies #[trigger] entry_of(img, c)
                        != BlockArrayEntry::Unused by {
                        if c != from {
                            assert(from + 1 <= c);
                        }
                    }
                }
            },
            Err(_) => {},
        }
    }
}

/// What the bitmaps say of `other` is the same in two images that differ only
/// outside the descriptors' blocks.
pub open spec fn same_bitmaps(a: Seq<u8>, b: Seq<u8>) -> bool {
    &&& a.len() == b.len()
    &&& forall|at: int| 0 <= at < a.len() && (at / 4096) % 16384 == 0 ==> #[trigger] a[at] == b[at]
}

/// Two images with the same bitmaps say the same of every block, and a scan for
/// an unused block finds the same in both.
#[verifier::rlimit(100)]
pub proof fn lemma_same_bitmaps(a: Seq<u8>, b: Seq<u8>, block: u32)
    requires
        same_bitmaps(a, b),
    ensures
        read_entry(a, block / 16384, block % 16384) == read_entry(b, block / 16384, block % 16384),
        entry_on_device(a.len(), block / 16384, block % 16384) ==> entry_at(
            a,
            block / 16384,
            block % 16384,
        ) == entry_at(b, block / 16384, block % 16384),
{
    let at = usage_addr(block / 16384, block % 16384);
    assert(at / 4096 == (block / 16384) * 16384);
    assert((at + 2048) / 4096 == (block / 16384) * 16384);
    if at < a.len() {
        assert(a[at] == b[at]);
    }
    if at + 2048 < a.len() {
        assert(a[at + 2048] == b[at + 2048]);
    }
}

/// A scan for an unused block finds the same in two images with the same bitmaps.
#[verifier::rlimit(100)]
pub proof fn lemma_same_scan(a: Seq<u8>, b: Seq<u8>, from: int, total: int)
    requires
        same_bitmaps(a, b),
    ensures
        first_unused(a, from, total) == first_unused(b, from, total),
    decreases total - from,
{
    if from < total && 0 <= from <= u32::MAX {
        lemma_same_bitmaps(a, b, from as u32);
        lemma_same_scan(a, b, from + 1, total);
    }
}

/// Writing within a block that is no descriptor's leaves the bitmaps as they are.
#[verifier::rlimit(100)]
pub proof fn lemma_splice_keeps_bitmaps(img: Seq<u8>, block: u32, off: int, data: Seq<u8>)
    requires
        block % 16384 != 0,
        0 <= off,
        off + data.len() <= 4096,
    ensures
        same_bitmaps(img, splice(img, block * 4096 + off, data)),
{
    let out = splice(img, block * 4096 + off, data);
    assert forall|at: int| 0 <= at < img.len() && (at / 4096) % 16384 == 0 implies #[trigger] img[at]
        == out[at] by {
        if block * 4096 + off <= at < block * 4096 + off + data.len() {
            assert(at / 4096 == block);
        }
    }
}

/// Whether two states differ at most in the bytes of block `block`, in the stored
/// superblock, and in the bitmaps of the segment of `block`.
pub open spec fn changed_only(before: FsState, after: FsState, block: u32) -> bool {
    &&& after.image.len() == before.image.len()
    &&& forall|at: int|
        0 <= at < before.image.len() && at / 4096 != block && !(4096 <= at < 4178) && at / 4096 != (
        block / 16384) * 16384 ==> #[trigger] after.image[at] == before.image[at]
}

/// Whether two superblocks differ at most in what the allocator keeps: the hints
/// and the count of unused blocks.
pub open spec fn same_identity(a: Superblock, b: Superblock) -> bool {
    a == (Superblock {
        earliest_free: a.earliest_free,
        earliest_inode_space: a.earliest_inode_space,
        last_free: a.last_free,
        total_unused: a.total_unused,
        ..b
    })
}

/// The superblock after a successful allocation of its earliest free block, with
/// `next` as the earliest free block from then on.
pub open spec fn after_allocation(sb: Superblock, for_inodes: bool, next: u32) -> Superblock {
    Superblock {
        earliest_free: next,
        earliest_inode_space: if for_inodes {
            (sb.earliest_free * 32) as u32
        } else {
            sb.earliest_inode_space
        },
        last_free: if sb.earliest_free == sb.last_free {
            0
        } else {
            sb.last_free
        },
        total_unused: one_less(sb.total_unused),
        ..sb
    }
}

/// The kind that an allocation records.
pub open spec fn kind_for(for_inodes: bool) -> BlockArrayEntry {
    if for_inodes {
        BlockArrayEntry::InodeBlock
    } else {
        BlockArrayEntry::Allocated
    }
}

/// The image after `kind` was recorded for `block`, `stored` written as the
/// superblock, and the block zeroed.
pub open spec fn taken_image(img: Seq<u8>, block: u32, kind: BlockArrayEntry, stored: Seq<u8>) -> Seq<
    u8,
> {
    splice(
        splice(with_entry(img, block / 16384, block % 16384, kind), 4096, stored),
        block * 4096,
        zeros(4096),
    )
}

/// A successful allocation, step by step: the earliest free block is recorded in
/// the bitmaps, the scan finds a next unused block, the superblock is stored with
/// it, and the block is zeroed.
#[verifier::rlimit(100)]
pub proof fn lemma_allocate_steps(fs: FsState, for_inodes: bool)
    requires
        fs.allocate(for_inodes).1 is Ok,
    ensures
        ({
            let block = fs.superblock.earliest_free;
            let marked = with_entry(fs.image, block / 16384, block % 16384, kind_for(for_inodes));
            let found = first_unused(marked, block + 1, fs.superblock.total_blocks as int);
            let sb = after_allocation(fs.superblock, for_inodes, found->Ok_0->Some_0);
            &&& block != 0
            &&& block % 16384 != 0
            &&& entry_on_device(fs.image.len(), block / 16384, block % 16384)
            &&& found is Ok
            &&& found->Ok_0 is Some
            &&& in_range(fs.image.len(), 4096, 82)
            &&& block * 4096 + 4096 <= fs.image.len()
            &&& fs.allocate(for_inodes).1 == Ok::<u32, FsError>(block)
            &&& fs.allocate(for_inodes).0.superblock == sb
            &&& fs.allocate(for_inodes).0.image == taken_image(
                fs.image,
                block,
                kind_for(for_inodes),
                sb.encode(),
            )
        }),
{
    reveal(FsState::allocate);
}

/// What the steps of an allocation leave on the image: the bitmaps as recorded,
/// the superblock as stored, the block zeroed, and every other byte as it was.
#[verifier::rlimit(100)]
pub proof fn lemma_taken_image(img: Seq<u8>, block: u32, kind: BlockArrayEntry, stored: Seq<u8>)
    requires
        block >= 2,
        block % 16384 != 0,
        stored.len() == 82,
        block * 4096 + 4096 <= img.len(),
    ensures
        ({
            let marked = with_entry(img, block / 16384, block % 16384, kind);
            let out = taken_image(img, block, kind, stored);
            &&& out.len() == img.len()
            &&& same_bitmaps(marked, out)
            &&& span(out, block * 4096, 4096) == zeros(4096)
            &&& span(out, 4096, 82) == stored
            &&& forall|at: int|
                0 <= at < img.len() && at / 4096 != block && !(4096 <= at < 4178) && at / 4096 != (
                block / 16384) * 16384 ==> #[trigger] out[at] == img[at]
        }),
{
    let marked = with_entry(img, block / 16384, block % 16384, kind);
    let mid = splice(marked, 4096, stored);
    let out = taken_image(img, block, kind, stored);
    lemma_splice_keeps_bitmaps(marked, 1, 0, stored);
    lemma_splice_keeps_bitmaps(mid, block, 0, zeros(4096));
    assert(span(out, block * 4096, 4096) =~= zeros(4096));
    assert(span(out, 4096, 82) =~= stored);
    assert forall|at: int|
        0 <= at < img.len() && at / 4096 != block && !(4096 <= at < 4178) && at / 4096 != (block
            / 16384) * 16384 implies #[trigger] out[at] == img[at] by {
        lemma_with_entry_outside(img, block / 16384, block % 16384, kind, at);
    }
}

/// What a successful allocation on a well-formed filesystem gives. The block is
/// the one that the superblock named as the earliest free one: a usable block that
/// the bitmaps said was unused. Afterwards the bitmaps record it as asked, it holds
/// zeros, the superblock names a block above it as the earliest free one, and the
/// filesystem is well-formed. The bitmaps say of every other block what they said
/// before, and outside the block, the stored superblock and the bitmaps of the
/// block's segment no byte has changed.
#[verifier::spinoff_prover]
#[verifier::rlimit(100)]
pub proof fn lemma_allocate(fs: FsState, for_inodes: bool)
    requires
        fs.wf(),
        fs.allocate(for_inodes).1 is Ok,
    ensures
        ({
            let after = fs.allocate(for_inodes).0;
            let block = fs.allocate(for_inodes).1->Ok_0;
            &&& block == fs.superblock.earliest_free
            &&& usable(fs, block)
            &&& fs.entry(block) == BlockArrayEntry::Unused
            &&& after.entry(block) == kind_for(for_inodes)
            &&& after.block(block) == zeros(4096)
            &&& after.superblock.earliest_free > block
            &&& after.wf()
            &&& same_identity(after.superblock, fs.superblock)
            &&& changed_only(fs, after, block)
            &&& forall|other: u32|
                other != block && other < fs.superblock.total_blocks ==> #[trigger] after.entry(other)
                    == fs.entry(other)
            &&& span(after.image, 4096, 82) == after.superblock.encode()
            &&& after.superblock.total_unused == fs.superblock.total_unused - 1
            &&& after.superblock.earliest_inode_space == if for_inodes {
                (block * 32) as u32
            } else {
                fs.superblock.earliest_inode_space
            }
        }),
{
    lemma_allocate_steps(fs, for_inodes);
    let blk = fs.superblock.earliest_free;
    let kind = kind_for(for_inodes);
    let total = fs.superblock.total_blocks;
    let marked = with_entry(fs.image, blk / 16384, blk % 16384, kind);
    lemma_first_unused(marked, blk + 1, total as int);
    let next = first_unused(marked, blk + 1, total as int)->Ok_0->Some_0;
    let after = fs.allocate(for_inodes).0;
    let sb = after.superblock;
    sb.lemma_round_trip();
    assert(blk != 1);
    lemma_taken_image(fs.image, blk, kind, sb.encode());
    lemma_recorded_entry_is_read(fs.image, blk / 16384, blk % 16384, kind);
    assert forall|other: u32| other < total implies #[trigger] after.entry(other) == entry_at(
        marked,
        other / 16384,
        other % 16384,
    ) by {
        lemma_same_bitmaps(marked, after.image, other);
    }
    assert forall|other: u32| other != blk && other < total implies #[trigger] after.entry(other)
        == fs.entry(other) by {
        lemma_other_entries_kept(
            fs.image,
            blk / 16384,
            blk % 16384,
            kind,
            other / 16384,
            other % 16384,
        );
    }
    assert(after.entry(1) == fs.entry(1));
    assert(after.entry(next) == BlockArrayEntry::Unused);
    assert forall|c: u32| blk < c < next implies #[trigger] after.entry(c)
        != BlockArrayEntry::Unused by {
        assert(entry_of(marked, c) != BlockArrayEntry::Unused);
        assert(after.entry(c) == entry_at(marked, c / 16384, c % 16384));
    }
    lemma_allocate_counted(fs, after, blk, next);
}

/// What freeing a usable block of a well-formed filesystem gives. It succeeds.
/// Afterwards the bitmaps say that the block is unused, it holds zeros, the
/// superblock names it as the earliest free block where it named a block above
/// it, and the filesystem is well-formed. The bitmaps say of every other block
/// what they said before, and outside the block, the stored superblock and the
/// bitmaps of the block's segment no byte has changed.
#[verifier::spinoff_prover]
#[verifier::rlimit(100)]
pub proof fn lemma_free(fs: FsState, block: u32)
    requires
        fs.wf(),
        usable(fs, block),
    ensures
        ({
            let after = fs.free(block).0;
            &&& fs.free(block).1 is Ok
            &&& after.entry(block) == BlockArrayEntry::Unused
            &&& after.block(block) == zeros(4096)
            &&& after.superblock.earliest_free == if fs.superblock.earliest_free > block {
                block
            } else {
                fs.superblock.earliest_free
            }
            &&& after.wf()
            &&& same_identity(after.superblock, fs.superblock)
            &&& after.superblock.earliest_inode_space == fs.superblock.earliest_inode_space
            &&& after.superblock.total_unused == fs.superblock.total_unused + 1 - unused(
                fs.entry(block),
            )
            &&& changed_only(fs, after, block)
            &&& forall|other: u32|
                other != block && other < fs.superblock.total_blocks ==> #[trigger] after.entry(other)
                    == fs.entry(other)
        }),
{
    reveal(FsState::free);
    let total = fs.superblock.total_blocks;
    let after = fs.free(block).0;
    let sb = after.superblock;
    sb.lemma_round_trip();
    let seen = read_entry(fs.image, block / 16384, block % 16384);
    assert(seen == Ok::<BlockArrayEntry, crate::disk::DiskError>(fs.entry(block)));
    let hinted = if fs.superblock.earliest_free > block || fs.entry(block)
        != BlockArrayEntry::Unused {
        splice(fs.image, 4096, sb.encode())
    } else {
        fs.image
    };
    let marked = with_entry(hinted, block / 16384, block % 16384, BlockArrayEntry::Unused);
    assert(after.image == splice(marked, block * 4096, zeros(4096)));
    lemma_free_image(fs.image, hinted, block, sb.encode());
    lemma_recorded_entry_is_read(hinted, block / 16384, block % 16384, BlockArrayEntry::Unused);
    assert forall|other: u32| other < total implies #[trigger] after.entry(other) == entry_at(
        marked,
        other / 16384,
        other % 16384,
    ) by {
        lemma_same_bitmaps(marked, after.image, other);
    }
    assert forall|other: u32| other != block && other < total implies #[trigger] after.entry(other)
        == fs.entry(other) by {
        lemma_other_entries_kept(
            hinted,
            block / 16384,
            block % 16384,
            BlockArrayEntry::Unused,
            other / 16384,
            other % 16384,
        );
        lemma_same_bitmaps(fs.image, hinted, other);
    }
    assert(after.entry(1) == fs.entry(1));
    if fs.superblock.earliest_free != 0 && fs.superblock.earliest_free != block {
        assert(after.entry(fs.superblock.earliest_free) == fs.entry(fs.superblock.earliest_free));
    }
    lemma_free_counted(fs, after, block);
}

/// What the steps of freeing a block leave on the image.
#[verifier::rlimit(100)]
proof fn lemma_free_image(img: Seq<u8>, hinted: Seq<u8>, block: u32, stored: Seq<u8>)
    requires
        block >= 2,
        block % 16384 != 0,
        stored.len() == 82,
        block * 4096 + 4096 <= img.len(),
        hinted == img || hinted == splice(img, 4096, stored),
    ensures
        ({
            let marked = with_entry(hinted, block / 16384, block % 16384, BlockArrayEntry::Unused);
            let out = splice(marked, block * 4096, zeros(4096));
            &&& out.len() == img.len()
            &&& same_bitmaps(marked, out)
            &&& same_bitmaps(img, hinted)
            &&& span(out, block * 4096, 4096) == zeros(4096)
            &&& forall|at: int|
                0 <= at < img.len() && at / 4096 != block && !(4096 <= at < 4178) && at / 4096 != (
                block / 16384) * 16384 ==> #[trigger] out[at] == img[at]
        }),
{
    let marked = with_entry(hinted, block / 16384, block % 16384, BlockArrayEntry::Unused);
    let out = splice(marked, block * 4096, zeros(4096));
    lemma_splice_keeps_bitmaps(img, 1, 0, stored);
    lemma_splice_keeps_bitmaps(marked, block, 0, zeros(4096));
    assert(span(out, block * 4096, 4096) =~= zeros(4096));
    assert forall|at: int|
        0 <= at < img.len() && at / 4096 != block && !(4096 <= at < 4178) && at / 4096 != (block
            / 16384) * 16384 implies #[trigger] out[at] == img[at] by {
        lemma_with_entry_outside(hinted, block / 16384, block % 16384, BlockArrayEntry::Unused, at);
    }
}

/// Writing within a block that is no descriptor's leaves what the bitmaps say of
/// every block, and a well-formed filesystem well-formed.
#[verifier::rlimit(100)]
pub proof fn lemma_write_keeps_entries(fs: FsState, block: u32, off: int, data: Seq<u8>)
    requires
        block % 16384 != 0,
        0 <= off,
        off + data.len() <= 4096,
    ensures
        ({
            let after = FsState {
                image: splice(fs.image, block * 4096 + off, data),
                superblock: fs.superblock,
            };
            &&& forall|other: u32|
                other < fs.superblock.total_blocks && fs.image.len() >= fs.superblock.total_blocks
                    * 4096 ==> #[trigger] after.entry(other) == fs.entry(other)
            &&& fs.wf() ==> after.wf()
        }),
{
    let after = FsState {
        image: splice(fs.image, block * 4096 + off, data),
        superblock: fs.superblock,
    };
    lemma_splice_keeps_bitmaps(fs.image, block, off, data);
    assert forall|other: u32|
        other < fs.superblock.total_blocks && fs.image.len() >= fs.superblock.total_blocks
            * 4096 implies #[trigger] after.entry(other) == fs.entry(other) by {
        lemma_same_bitmaps(fs.image, after.image, other);
    }
    if fs.wf() {
        assert(after.entry(1) == fs.entry(1));
        if fs.superblock.earliest_free != 0 {
            assert(after.entry(fs.superblock.earliest_free) == fs.entry(fs.superblock.earliest_free));
        }
        lemma_counted_kept(fs, after);
    }
}

/// Allocations that follow one another on a well-formed filesystem give blocks
/// with increasing numbers, none of them the block of a descriptor.
#[verifier::rlimit(100)]
pub proof fn lemma_allocations_increase(fs: FsState, first_for_inodes: bool, then_for_inodes: bool)
    requires
        fs.wf(),
        fs.allocate(first_for_inodes).1 is Ok,
        fs.allocate(first_for_inodes).0.allocate(then_for_inodes).1 is Ok,
    ensures
        ({
            let first = fs.allocate(first_for_inodes);
            let then = first.0.allocate(then_for_inodes);
            &&& first.1->Ok_0 < then.1->Ok_0
            &&& first.1->Ok_0 % 16384 != 0
            &&& then.1->Ok_0 % 16384 != 0
            &&& then.0.wf()
        }),
{
    lemma_allocate(fs, first_for_inodes);
    lemma_allocate(fs.allocate(first_for_inodes).0, then_for_inodes);
}

/// A block that was freed and is then allocated again holds zeros.
#[verifier::rlimit(100)]
pub proof fn lemma_freed_then_allocated_is_zeroed(fs: FsState, block: u32, for_inodes: bool)
    requires
        fs.wf(),
        usable(fs, block),
        fs.free(block).0.allocate(for_inodes).1 == Ok::<u32, FsError>(block),
    ensures
        fs.free(block).1 is Ok,
        fs.free(block).0.allocate(for_inodes).0.block(block) == zeros(4096),
        fs.free(block).0.allocate(for_inodes).0.wf(),
{
    lemma_free(fs, block);
    lemma_allocate(fs.free(block).0, for_inodes);
}

/// From `from` up to `n` the number of unused blocks does not fall, and it stays
/// where the bitmaps say of no block from `from` on and below `n` that it is
/// unused.
#[verifier::rlimit(100)]
pub proof fn lemma_unused_between(a: FsState, from: int, n: int)
    requires
        0 <= from <= n <= u32::MAX + 1,
    ensures
        a.unused_below(from) <= a.unused_below(n),
        (forall|c: u32| from <= c < n ==> #[trigger] a.entry(c) != BlockArrayEntry::Unused)
            ==> a.unused_below(n) == a.unused_below(from),
    decreases n - from,
{
    if from < n {
        lemma_unused_between(a, from, n - 1);
        if forall|c: u32| from <= c < n ==> #[trigger] a.entry(c) != BlockArrayEntry::Unused {
            assert(a.entry((n - 1) as u32) != BlockArrayEntry::Unused);
        }
    }
}

/// An allocation on a well-formed filesystem succeeds exactly where the superblock
/// names an earliest free block and counts at least two unused blocks: the
/// earliest free block is taken, and a block above it becomes the next one. Else
/// there is no space.
#[verifier::spinoff_prover]
#[verifier::rlimit(100)]
pub proof fn lemma_allocate_succeeds(fs: FsState, for_inodes: bool)
    requires
        fs.wf(),
    ensures
        fs.allocate(for_inodes).1 is Ok <==> fs.superblock.earliest_free != 0
            && fs.superblock.total_unused >= 2,
        fs.allocate(for_inodes).1 is Err ==> fs.allocate(for_inodes).1 == Err::<u32, FsError>(
            FsError::NoSpace,
        ),
{
    reveal(FsState::allocate);
    reveal(FsState::counted);
    let blk = fs.superblock.earliest_free;
    let total = fs.superblock.total_blocks as int;
    if blk != 0 {
        let kind = kind_for(for_inodes);
        let marked = with_entry(fs.image, blk / 16384, blk % 16384, kind);
        assert(blk % 16384 != 0);
        assert(entry_on_device(fs.image.len(), blk / 16384, blk % 16384));
        lemma_first_unused(marked, blk + 1, total);
        assert forall|c: u32| c != blk && c < total implies entry_of(marked, c) == fs.entry(
            c,
        ) by {
            lemma_other_entries_kept(fs.image, blk / 16384, blk % 16384, kind, c / 16384, c % 16384);
        }
        lemma_unused_between(fs, 0, blk as int);
        assert(fs.unused_below(blk + 1) == 1);
        match first_unused(marked, blk + 1, total) {
            Ok(None) => {
                assert forall|c: u32| blk + 1 <= c < total implies #[trigger] fs.entry(c)
                    != BlockArrayEntry::Unused by {
                    assert(entry_of(marked, c) != BlockArrayEntry::Unused);
                }
                lemma_unused_between(fs, blk + 1, total);
            },
            Ok(Some(next)) => {
                assert(fs.entry(next) == entry_of(marked, next));
                lemma_unused_between(fs, blk + 1, next as int);
                lemma_unused_between(fs, next + 1, total);
                assert(fs.unused_below(next + 1) == fs.unused_below(next as int) + 1);
            },
            Err(_) => {},
        }
    }
}

/// A block that was freed below the earliest free block is the one that the next
/// allocation takes, where that allocation succeeds.
#[verifier::rlimit(100)]
pub proof fn lemma_freed_is_allocated_next(fs: FsState, block: u32, for_inodes: bool)
    requires
        fs.wf(),
        usable(fs, block),
        fs.superblock.earliest_free > block,
        fs.free(block).0.allocate(for_inodes).1 is Ok,
    ensures
        fs.free(block).0.allocate(for_inodes).1 == Ok::<u32, FsError>(block),
{
    lemma_free(fs, block);
    lemma_allocate(fs.free(block).0, for_inodes);
}

/// The superblock that was stored is the one that a mount reads, where it bears
/// the signature.
#[verifier::rlimit(100)]
pub proof fn lemma_stored_superblock_is_read(fs: FsState)
    requires
        fs.superblock.signed(),
        fs.persist().1 is Ok,
    ensures
        Superblock::stored_at(fs.persist().0.image, 4096) == Ok::<Superblock, FsError>(
            fs.superblock,
        ),
{
    fs.superblock.lemma_round_trip();
    assert(span(fs.persist().0.image, 4096, 82) =~= fs.superblock.encode());
}

/// Recording the descriptors of the segments from `i` on leaves the image's
/// length, every byte outside the descriptors' blocks, and, for `i` above zero,
/// the bitmaps of segment 0.
#[verifier::rlimit(100)]
proof fn lemma_with_descriptors(img: Seq<u8>, i: int, count: int)
    requires
        0 <= i,
    ensures
        with_descriptors(img, i, count).len() == img.len(),
        forall|at: int|
            0 <= at < img.len() && (at / 4096) % 16384 != 0 ==> #[trigger] with_descriptors(
                img,
                i,
                count,
            )[at] == img[at],
        forall|at: int| 0 <= at < 4096 && at < img.len() && i > 0 ==> #[trigger] with_descriptors(
            img,
            i,
            count,
        )[at] == img[at],
    decreases count - i,
{
    if i < count && i <= u32::MAX {
        let own = with_entry(img, i as u32, 0, BlockArrayEntry::BlockArrayDescriptor);
        let next = if i == 0 {
            with_entry(own, 0, 1, BlockArrayEntry::Allocated)
        } else {
            own
        };
        lemma_with_descriptors(next, i + 1, count);
        assert forall|at: int| 0 <= at < img.len() && (at / 4096) % 16384 != 0 implies #[trigger] next[at]
            == img[at] by {
            lemma_with_entry_outside(
                img,
                i as u32,
                0,
                BlockArrayEntry::BlockArrayDescriptor,
                at,
            );
            if i == 0 {
                lemma_with_entry_outside(own, 0, 1, BlockArrayEntry::Allocated, at);
            }
        }
        assert forall|at: int| 0 <= at < 4096 && at < img.len() && i > 0 implies #[trigger] next[at]
            == img[at] by {
            lemma_with_entry_outside(
                img,
                i as u32,
                0,
                BlockArrayEntry::BlockArrayDescriptor,
                at,
            );
        }
    }
}

/// The superblock and the bitmaps as `create` lays them out, before the root
/// directory is made.
pub open spec fn formatted(num_blocks: u32, name: Seq<u8>, now: u64) -> FsState {
    FsState {
        image: with_descriptors(
            splice(
                zeros((num_blocks * 4096) as nat),
                4096,
                Superblock::fresh(name, num_blocks, now).encode(),
            ),
            0,
            segments(num_blocks),
        ),
        superblock: Superblock::fresh(name, num_blocks, now),
    }
}

/// Recording the descriptors leaves what the bitmaps say of every block that is
/// no descriptor's, nor block 1.
#[verifier::rlimit(100)]
proof fn lemma_descriptors_keep(img: Seq<u8>, i: int, count: int, block: u32)
    requires
        0 <= i,
        block % 16384 != 0,
        block != 1 || i > 0,
        entry_on_device(img.len(), block / 16384, block % 16384),
    ensures
        entry_of(with_descriptors(img, i, count), block) == entry_of(img, block),
    decreases count - i,
{
    if i < count && i <= u32::MAX {
        let own = with_entry(img, i as u32, 0, BlockArrayEntry::BlockArrayDescriptor);
        lemma_other_entries_kept(
            img,
            i as u32,
            0,
            BlockArrayEntry::BlockArrayDescriptor,
            block / 16384,
            block % 16384,
        );
        let next = if i == 0 {
            with_entry(own, 0, 1, BlockArrayEntry::Allocated)
        } else {
            own
        };
        if i == 0 {
            lemma_other_entries_kept(
                own,
                0,
                1,
                BlockArrayEntry::Allocated,
                block / 16384,
                block % 16384,
            );
        }
        lemma_descriptors_keep(next, i + 1, count, block);
    }
}

/// Where the bitmaps say that exactly the blocks that are no descriptor's, nor
/// block 1, are unused, the unused blocks below `m` are all but the descriptors
/// and block 1.
#[verifier::rlimit(100)]
proof fn lemma_formatted_count(fs: FsState, n: int, m: int)
    requires
        0 <= m <= n <= u32::MAX,
        forall|b: u32|
            b < n ==> (#[trigger] fs.entry(b) == BlockArrayEntry::Unused <==> b % 16384 != 0 && b
                != 1),
    ensures
        fs.unused_below(m) == m - (m + 16383) / 16384 - if m >= 2 {
            1int
        } else {
            0int
        },
    decreases m,
{
    if m > 0 {
        lemma_formatted_count(fs, n, m - 1);
        let b = (m - 1) as u32;
        assert(fs.entry(b) == BlockArrayEntry::Unused <==> b % 16384 != 0 && b != 1);
        if b % 16384 == 0 {
            assert((m + 16383) / 16384 == (m - 1 + 16383) / 16384 + 1);
        } else {
            assert((m + 16383) / 16384 == (m - 1 + 16383) / 16384);
        }
    }
}

/// The superblock that `create` lays out counts the unused blocks, and names the
/// least of them.
#[verifier::spinoff_prover]
#[verifier::rlimit(100)]
pub proof fn lemma_formatted_counted(num_blocks: u32, name: Seq<u8>, now: u64)
    requires
        num_blocks >= 3,
    ensures
        formatted(num_blocks, name, now).counted(),
        forall|b: u32|
            b < num_blocks ==> (#[trigger] formatted(num_blocks, name, now).entry(b)
                == BlockArrayEntry::Unused <==> b % 16384 != 0 && b != 1),
{
    reveal(FsState::counted);
    let fs = formatted(num_blocks, name, now);
    let sb = Superblock::fresh(name, num_blocks, now);
    sb.lemma_round_trip();
    let blank = splice(zeros((num_blocks * 4096) as nat), 4096, sb.encode());
    let own = with_entry(blank, 0, 0, BlockArrayEntry::BlockArrayDescriptor);
    let first = with_entry(own, 0, 1, BlockArrayEntry::Allocated);
    assert(fs.image == with_descriptors(first, 1, segments(num_blocks)));
    lemma_with_descriptors(first, 1, segments(num_blocks));
    assert(fs.image[0] == first[0] && fs.image[2048] == first[2048]);
    lemma_recorded_entry_is_read(own, 0, 1, BlockArrayEntry::Allocated);
    assert(fs.entry(1) == entry_at(first, 0, 1));
    assert forall|b: u32| b < num_blocks implies (#[trigger] fs.entry(b) == BlockArrayEntry::Unused
        <==> b % 16384 != 0 && b != 1) by {
        if b % 16384 != 0 && b != 1 {
            let at = usage_addr(b / 16384, b % 16384);
            assert(at < blank.len() && at + 2048 < blank.len());
            assert(!(4096 <= at < 4178));
            lemma_descriptors_keep(blank, 0, segments(num_blocks), b);
            assert(blank[at] == 0u8);
            let k: u32 = b % 8;
            assert(0u8 & (1u8 << k) == 0u8) by (bit_vector);
            assert(entry_of(blank, b) == BlockArrayEntry::Unused);
        }
    }
    lemma_formatted_count(fs, num_blocks as int, num_blocks as int);
}

/// The filesystem that `create` lays out before it makes the root directory is
/// well-formed, and as large as was asked for.
#[verifier::spinoff_prover]
#[verifier::rlimit(100)]
pub proof fn lemma_formatted(num_blocks: u32, name: Seq<u8>, now: u64)
    requires
        num_blocks >= 3,
    ensures
        formatted(num_blocks, name, now).wf(),
        formatted(num_blocks, name, now).image.len() == num_blocks * 4096,
{
    let sb = Superblock::fresh(name, num_blocks, now);
    sb.lemma_round_trip();
    let blank = splice(zeros((num_blocks * 4096) as nat), 4096, sb.encode());
    let own = with_entry(blank, 0, 0, BlockArrayEntry::BlockArrayDescriptor);
    let first = with_entry(own, 0, 1, BlockArrayEntry::Allocated);
    let image = with_descriptors(blank, 0, segments(num_blocks));
    assert(image == with_descriptors(first, 1, segments(num_blocks)));
    lemma_with_descriptors(first, 1, segments(num_blocks));
    let formatted = FsState { image, superblock: sb };
    // segment 0 says: block 1 allocated, block 2 unused
    assert(image[0] == first[0] && image[2048] == first[2048]);
    lemma_recorded_entry_is_read(own, 0, 1, BlockArrayEntry::Allocated);
    lemma_other_entries_kept(own, 0, 1, BlockArrayEntry::Allocated, 0, 2);
    lemma_other_entries_kept(blank, 0, 0, BlockArrayEntry::BlockArrayDescriptor, 0, 2);
    assert(blank[0] == 0u8);
    assert(0u8 & (1u8 << 2u32) == 0u8) by (bit_vector);
    assert(entry_at(blank, 0, 2) == BlockArrayEntry::Unused);
    assert(formatted.entry(1) == entry_at(first, 0, 1));
    assert(formatted.entry(2) == entry_at(first, 0, 2));
    lemma_formatted_counted(num_blocks, name, now);
    assert(formatted.wf());
}

/// When `create` succeeds: a device of fewer than 3 blocks is not enough; a name
/// of more than 32 bytes is too long; on 3 blocks there is no space for the root
/// directory; and every other filesystem is made.
#[verifier::spinoff_prover]
#[verifier::rlimit(100)]
pub proof fn lemma_create_succeeds(num_blocks: u32, name: Seq<u8>, now: u64)
    ensures
        created(num_blocks, name, now) is Ok <==> num_blocks >= 4 && name.len() <= 32,
        num_blocks < 3 ==> created(num_blocks, name, now) == Err::<FsState, FsError>(
            FsError::DiskError(DiskError::NotEnoughSpace),
        ),
        num_blocks >= 3 && name.len() > 32 ==> created(num_blocks, name, now) == Err::<
            FsState,
            FsError,
        >(FsError::NameTooLong),
        num_blocks == 3 && name.len() <= 32 ==> created(num_blocks, name, now) == Err::<
            FsState,
            FsError,
        >(FsError::NoSpace),
{
    if num_blocks >= 3 && name.len() <= 32 {
        lemma_formatted(num_blocks, name, now);
        let formatted = formatted(num_blocks, name, now);
        lemma_allocate_succeeds(formatted, true);
        assert(formatted.superblock.total_unused >= 2 <==> num_blocks >= 4);
        if num_blocks >= 4 {
            lemma_allocate(formatted, true);
        }
    }
}

/// The filesystem that `create` makes is well-formed; a mount of its device reads
/// the superblock that it holds; and that superblock has the name and the number
/// of blocks that were asked for, and names a root inode.
#[verifier::spinoff_prover]
#[verifier::rlimit(100)]
pub proof fn lemma_created(num_blocks: u32, name: Seq<u8>, now: u64)
    requires
        created(num_blocks, name, now) is Ok,
    ensures
        ({
            let fs = created(num_blocks, name, now)->Ok_0;
            &&& fs.wf()
            &&& Superblock::stored_at(fs.image, 4096) == Ok::<Superblock, FsError>(fs.superblock)
            &&& fs.superblock.name == name_field(name)
            &&& fs.superblock.total_blocks == num_blocks
            &&& fs.superblock.root_inode == 64
            &&& fs.image.len() == num_blocks * 4096
            &&& fs.inode(64) == Ok::<Inode, FsError>(root_directory(now))
            &&& fs.entry(2) == BlockArrayEntry::InodeBlock
            &&& fs.superblock.earliest_inode_space == 64
        }),
{
    lemma_formatted(num_blocks, name, now);
    let formatted = formatted(num_blocks, name, now);
    // the root inode goes to the first slot of a newly allocated inode block
    let taken = formatted.allocate(true);
    lemma_allocate(formatted, true);
    let rooted = formatted.create_inode(root_directory(now));
    assert(rooted.0 == taken.0.put_inode(64, root_directory(now)).0);
    root_directory(now).lemma_round_trip();
    lemma_write_keeps_entries(taken.0, 2, 0, root_directory(now).encode());
    let with_root = FsState {
        image: rooted.0.image,
        superblock: Superblock { root_inode: 64, ..rooted.0.superblock },
    };
    assert(with_root.wf()) by {
        lemma_counted_kept(rooted.0, with_root);
        assert(with_root.entry(1) == rooted.0.entry(1));
        assert(with_root.entry(with_root.superblock.earliest_free) == rooted.0.entry(
            rooted.0.superblock.earliest_free,
        ));
    }
    with_root.superblock.lemma_round_trip();
    lemma_write_keeps_entries(with_root, 1, 0, with_root.superblock.encode());
    lemma_stored_superblock_is_read(with_root);
    let fs = created(num_blocks, name, now)->Ok_0;
    assert(fs == with_root.persist().0);
    assert(span(fs.image, 8192, 128) =~= root_directory(now).encode());
    assert(fs.entry(2) == with_root.entry(2));
    assert(with_root.entry(2) == rooted.0.entry(2));
    assert(rooted.0.entry(2) == taken.0.entry(2));
}

} // verus!
