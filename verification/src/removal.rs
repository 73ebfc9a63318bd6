//! What holds of the removal of inodes on a well-formed filesystem: an inode
//! block whose inodes are all gone is given back.

use crate::allocation::{lemma_allocate, lemma_free, usable};
use crate::fs::{BlockArrayEntry, FsError, FsState};
use crate::inode::MAX_BLOCKS;
use crate::inode::{any_linked, reclaim, Inode};
use crate::listing::hint_ok;
use crate::pruning::{
    lemma_drop_direct, lemma_drop_doubly, lemma_drop_singly, lemma_shrank_twice, without,
    without_direct,
};
use crate::superblock::Superblock;
use crate::tree::{
    doubly_node, home, lemma_put_inode_keeps_allocated, node_block, nodes_for, owned, singly_node,
    tree,
};
use vstd::prelude::*;

verus! {

/// Whether none of the 32 slots of the inode block `block` holds an inode with a
/// hard link.
pub open spec fn vacant(fs: FsState, block: u32) -> bool {
    forall|slot: u32|
        slot / 32 == block ==> (#[trigger] fs.inode(slot)) is Ok && fs.inode(slot)->Ok_0.hardlinks
            == 0
}

/// The scan of a vacant inode block finds no inode with a hard link.
#[verifier::rlimit(100)]
proof fn lemma_none_linked(fs: FsState, block: u32, from: int)
    requires
        vacant(fs, block),
        block * 32 <= from,
        block * 32 + 32 <= u32::MAX + 1,
    ensures
        any_linked(fs, from, block * 32 + 32) == Ok::<bool, FsError>(false),
    decreases block * 32 + 32 - from,
{
    if from < block * 32 + 32 {
        assert((from as u32) / 32 == block);
        assert(fs.inode(from as u32) is Ok);
        lemma_none_linked(fs, block, from + 1);
    }
}

/// What giving back the inode block of a slot does where the block is vacant: it
/// succeeds; the bitmaps say that the block is unused; the superblock names it as
/// the earliest free block where it named a block above it; the hint for the next
/// inode is cleared where it named a slot of the block; and the filesystem stays
/// well-formed, with a sound hint.
#[verifier::spinoff_prover]
#[verifier::rlimit(100)]
pub proof fn lemma_reclaim(fs: FsState, slot: u32)
    requires
        fs.wf(),
        hint_ok(fs),
        home(fs, slot),
        fs.superblock.total_blocks <= 0x800_0000,
        vacant(fs, slot / 32),
    ensures
        ({
            let after = reclaim(fs, slot).0;
            &&& reclaim(fs, slot).1 is Ok
            &&& after.wf()
            &&& hint_ok(after)
            &&& after.entry(slot / 32) == BlockArrayEntry::Unused
            &&& after.superblock.earliest_free == if fs.superblock.earliest_free > slot / 32 {
                slot / 32
            } else {
                fs.superblock.earliest_free
            }
            &&& after.superblock.earliest_inode_space == if fs.superblock.earliest_inode_space
                != 0 && fs.superblock.earliest_inode_space / 32 == slot / 32 {
                0
            } else {
                fs.superblock.earliest_inode_space
            }
        }),
{
    reveal(reclaim);
    let block = slot / 32;
    lemma_none_linked(fs, block, block * 32);
    lemma_free(fs, block);
    let freed = fs.free(block);
    let hint = freed.0.superblock.earliest_inode_space;
    assert(hint == fs.superblock.earliest_inode_space);
    if hint != 0 && hint / 32 == block {
        let cleared = FsState {
            image: freed.0.image,
            superblock: Superblock { earliest_inode_space: 0, ..freed.0.superblock },
        };
        cleared.superblock.lemma_round_trip();
        crate::allocation::lemma_write_keeps_entries(cleared, 1, 0, cleared.superblock.encode());
        let after = cleared.persist().0;
        assert(cleared.wf()) by {
            crate::allocation::lemma_counted_kept(freed.0, cleared);
            assert(cleared.entry(1) == freed.0.entry(1));
            assert(cleared.entry(cleared.superblock.earliest_free) == freed.0.entry(
                freed.0.superblock.earliest_free,
            ));
        }
        assert(after.entry(block) == cleared.entry(block));
        assert(cleared.entry(block) == freed.0.entry(block));
    } else {
        if hint >= 64 {
            assert(freed.0.entry(hint / 32) == fs.entry(hint / 32));
        }
    }
}

/// A vacant inode block that was given back below the earliest free block is the
/// block that the next allocation takes, where that allocation succeeds.
#[verifier::rlimit(100)]
pub proof fn lemma_reclaimed_is_allocated_next(fs: FsState, slot: u32, for_inodes: bool)
    requires
        fs.wf(),
        hint_ok(fs),
        home(fs, slot),
        fs.superblock.total_blocks <= 0x800_0000,
        vacant(fs, slot / 32),
        fs.superblock.earliest_free > slot / 32,
        reclaim(fs, slot).0.allocate(for_inodes).1 is Ok,
    ensures
        reclaim(fs, slot).0.allocate(for_inodes).1 == Ok::<u32, FsError>(slot / 32),
{
    lemma_reclaim(fs, slot);
    lemma_allocate(reclaim(fs, slot).0, for_inodes);
}

/// The scan of an inode block finds an inode with a hard link where the block is
/// not vacant, and none where it is.
#[verifier::rlimit(100)]
proof fn lemma_any_linked(fs: FsState, block: u32, from: int)
    requires
        usable(fs, block),
        fs.image.len() >= fs.superblock.total_blocks * 4096,
        block * 32 <= from <= block * 32 + 32,
        block * 32 + 32 <= u32::MAX + 1,
        forall|slot: u32|
            block * 32 <= slot < from ==> (#[trigger] fs.inode(slot)) is Ok && fs.inode(
                slot,
            )->Ok_0.hardlinks == 0,
    ensures
        any_linked(fs, from, block * 32 + 32) is Ok,
        any_linked(fs, from, block * 32 + 32) == Ok::<bool, FsError>(false) <==> vacant(fs, block),
    decreases block * 32 + 32 - from,
{
    if from < block * 32 + 32 {
        let slot = from as u32;
        assert(slot / 32 == block);
        assert(fs.inode(slot) is Ok);
        if fs.inode(slot)->Ok_0.hardlinks == 0 {
            assert forall|s: u32| block * 32 <= s < from + 1 implies (#[trigger] fs.inode(s)) is Ok
                && fs.inode(s)->Ok_0.hardlinks == 0 by {
                if s != slot {
                    assert(s < from);
                }
            }
            lemma_any_linked(fs, block, from + 1);
        }
    } else {
        assert(vacant(fs, block)) by {
            assert forall|s: u32| s / 32 == block implies (#[trigger] fs.inode(s)) is Ok
                && fs.inode(s)->Ok_0.hardlinks == 0 by {
                assert(block * 32 <= s < from);
            }
        }
    }
}

/// An inode with the pointers of another has the tree of the other.
#[verifier::rlimit(100)]
proof fn lemma_same_pointers(inode: Inode, other: Inode, fs: FsState, slot: u32, live: Set<int>)
    requires
        tree(inode, fs, slot, live),
        other.block_pointers == inode.block_pointers,
        other.singly_indirect_block_pointer == inode.singly_indirect_block_pointer,
        other.doubly_indirect_block_pointer == inode.doubly_indirect_block_pointer,
    ensures
        tree(other, fs, slot, live),
        forall|n: int| #[trigger] node_block(other, fs.image, n) == node_block(inode, fs.image, n),
{
    assert forall|n: int| #[trigger]
        node_block(other, fs.image, n) == node_block(inode, fs.image, n) by {}
}

/// What `delete` does to an inode with one hard link, on a well-formed
/// filesystem: it succeeds; the bitmaps say that every block of the inode's tree
/// is unused; the inode is left without hard links and without blocks; its inode
/// block is given back where it holds no other inode with a hard link: then the
/// earliest free block, where the superblock named one before, is at most that
/// block, and a hint into that block is cleared; and the filesystem stays
/// well-formed, with a sound hint.
#[verifier::spinoff_prover]
#[verifier::rlimit(100)]
pub proof fn lemma_remove(inode: Inode, fs: FsState, slot: u32, k: int)
    requires
        fs.wf(),
        hint_ok(fs),
        home(fs, slot),
        fs.superblock.total_blocks <= 0x800_0000,
        inode.hardlinks == 1,
        tree(inode, fs, slot, nodes_for(k)),
        0 <= k <= MAX_BLOCKS,
    ensures
        ({
            let after = inode.remove(fs, slot).0;
            let left = inode.remove(fs, slot).1;
            let others_gone = forall|other: u32|
                other / 32 == slot / 32 && other != slot ==> (#[trigger] fs.inode(other)) is Ok
                    && fs.inode(other)->Ok_0.hardlinks == 0;
            &&& inode.remove(fs, slot).2 is Ok
            &&& left.hardlinks == 0
            &&& forall|i: int| 0 <= i < 10 ==> left.block_pointers@[i] == 0
            &&& left.singly_indirect_block_pointer == 0
            &&& left.doubly_indirect_block_pointer == 0
            &&& after.wf()
            &&& hint_ok(after)
            &&& forall|n: int|
                nodes_for(k).contains(n) ==> after.entry(#[trigger] node_block(inode, fs.image, n))
                    == BlockArrayEntry::Unused
            &&& after.entry(slot / 32) == if others_gone {
                BlockArrayEntry::Unused
            } else {
                BlockArrayEntry::InodeBlock
            }
            &&& !others_gone ==> after.inode(slot) == Ok::<Inode, FsError>(left)
            &&& others_gone && fs.superblock.earliest_free != 0
                ==> after.superblock.earliest_free != 0 && after.superblock.earliest_free <= slot
                / 32
            &&& others_gone && fs.superblock.earliest_inode_space != 0
                && fs.superblock.earliest_inode_space / 32 == slot / 32
                ==> after.superblock.earliest_inode_space == 0
        }),
{
    let live = nodes_for(k);
    let block = slot / 32;
    let unlinked = Inode { hardlinks: 0, ..inode };
    lemma_same_pointers(inode, unlinked, fs, slot, live);
    let w = fs.put_inode(slot, unlinked);
    crate::files::lemma_stored(unlinked, fs, slot, live);
    let d = unlinked.drop_direct(w.0, 0);
    lemma_drop_direct(unlinked, w.0, slot, live, 0);
    let l1 = without_direct(live, 0);
    let s = d.1.drop_singly(d.0);
    lemma_drop_singly(d.1, d.0, slot, l1);
    let l2 = without(l1, singly_node());
    lemma_shrank_twice(unlinked, w.0, slot, live, d.1, d.0, l1, s.1, s.0, l2);
    let t = s.1.drop_doubly(s.0);
    lemma_drop_doubly(s.1, s.0, slot, l2);
    let l3 = without(l2, doubly_node());
    lemma_shrank_twice(unlinked, w.0, slot, live, s.1, s.0, l2, t.1, t.0, l3);
    assert(l3 =~= nodes_for(0));
    let stored = t.0.put_inode(slot, t.1);
    lemma_put_inode_keeps_allocated(t.0, slot, t.1, slot);
    assert forall|i: int| 0 <= i < 10 implies t.1.block_pointers@[i] == 0 by {
        assert(node_block(t.1, t.0.image, i) == 0);
    }
    assert(node_block(t.1, t.0.image, singly_node()) == 0);
    assert(node_block(t.1, t.0.image, doubly_node()) == 0);
    assert(home(stored.0, slot)) by {
        assert(stored.0.entry(block) == t.0.entry(block));
    }
    let hint = fs.superblock.earliest_inode_space;
    assert(hint_ok(stored.0)) by {
        if hint >= 64 {
            assert(home(w.0, hint)) by {
                lemma_put_inode_keeps_allocated(fs, slot, unlinked, slot);
                assert(w.0.entry(hint / 32) == fs.entry(hint / 32));
            }
            assert(t.0.inode(hint) == w.0.inode(hint));
            assert(stored.0.entry(hint / 32) == t.0.entry(hint / 32));
        }
    }
    assert forall|n: int| live.contains(n) implies stored.0.entry(
        #[trigger] node_block(inode, fs.image, n),
    ) == BlockArrayEntry::Unused by {
        let x = node_block(inode, fs.image, n);
        assert(owned(fs, slot, x));
        assert(node_block(unlinked, fs.image, n) == x);
        assert(node_block(unlinked, w.0.image, n) == x);
        assert(t.0.entry(node_block(unlinked, w.0.image, n)) == BlockArrayEntry::Unused);
        assert(stored.0.entry(x) == t.0.entry(x));
    }
    // the inode block is given back where none of its slots is in use
    reveal(reclaim);
    lemma_any_linked(stored.0, block, block * 32);
    let others_gone = forall|other: u32|
        other / 32 == slot / 32 && other != slot ==> (#[trigger] fs.inode(other)) is Ok && fs.inode(
            other,
        )->Ok_0.hardlinks == 0;
    assert forall|other: u32| other / 32 == block && other != slot implies #[trigger] stored.0.inode(
        other,
    ) == fs.inode(other) by {
        lemma_put_inode_keeps_allocated(fs, slot, unlinked, other);
        lemma_put_inode_keeps_allocated(t.0, slot, t.1, other);
        assert(home(fs, other));
        assert(home(w.0, other)) by {
            assert(w.0.entry(block) == fs.entry(block));
        }
        assert(t.0.inode(other) == w.0.inode(other));
    }
    assert(vacant(stored.0, block) <==> others_gone) by {
        if others_gone {
            assert forall|s2: u32| s2 / 32 == block implies (#[trigger] stored.0.inode(s2)) is Ok
                && stored.0.inode(s2)->Ok_0.hardlinks == 0 by {
                if s2 != slot {
                    assert(fs.inode(s2) is Ok);
                }
            }
        }
        if vacant(stored.0, block) {
            assert forall|other: u32| other / 32 == slot / 32 && other != slot implies (
            #[trigger] fs.inode(other)) is Ok && fs.inode(other)->Ok_0.hardlinks == 0 by {
                assert(stored.0.inode(other) is Ok);
            }
        }
    }
    assert(stored.0.superblock.earliest_inode_space == fs.superblock.earliest_inode_space);
    assert(fs.superblock.earliest_free != 0 ==> stored.0.superblock.earliest_free != 0);
    if vacant(stored.0, block) {
        lemma_reclaim(stored.0, slot);
        let after = reclaim(stored.0, slot).0;
        lemma_free(stored.0, block);
        assert forall|n: int| live.contains(n) implies after.entry(
            #[trigger] node_block(inode, fs.image, n),
        ) == BlockArrayEntry::Unused by {
            let x = node_block(inode, fs.image, n);
            assert(owned(fs, slot, x));
            lemma_reclaim_keeps_entries(stored.0, slot, x);
        }
    }
}

/// Giving back the inode block of a slot leaves what the bitmaps say of every
/// other block.
#[verifier::rlimit(100)]
proof fn lemma_reclaim_keeps_entries(fs: FsState, slot: u32, other: u32)
    requires
        fs.wf(),
        hint_ok(fs),
        home(fs, slot),
        fs.superblock.total_blocks <= 0x800_0000,
        vacant(fs, slot / 32),
        other != slot / 32,
        other < fs.superblock.total_blocks,
    ensures
        reclaim(fs, slot).0.entry(other) == fs.entry(other),
{
    reveal(reclaim);
    let block = slot / 32;
    lemma_none_linked(fs, block, block * 32);
    lemma_free(fs, block);
    let freed = fs.free(block);
    let hint = freed.0.superblock.earliest_inode_space;
    if hint != 0 && hint / 32 == block {
        let cleared = FsState {
            image: freed.0.image,
            superblock: Superblock { earliest_inode_space: 0, ..freed.0.superblock },
        };
        cleared.superblock.lemma_round_trip();
        crate::allocation::lemma_write_keeps_entries(cleared, 1, 0, cleared.superblock.encode());
        assert(cleared.persist().0.entry(other) == cleared.entry(other));
        assert(cleared.entry(other) == freed.0.entry(other));
    }
}

} // verus!
