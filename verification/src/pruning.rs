//! What keeps the tree of an inode sound while blocks are given back.

use crate::allocation::{lemma_free, same_identity, usable};
use crate::codec::{span, zeros};
use crate::fs::{BlockArrayEntry, FsError, FsState};
use crate::inode::{release_entries, release_table, table_entries, Inode, MAX_BLOCKS};
use crate::tree::{
    doubly_node, home, inner_node, is_node, lemma_node_in_parent, lemma_node_of_place,
    lemma_tree_kept, node_block, nodes_for, owned, parent, pointers_kept, position, singly_node,
    tree, tree_entry, with_field,
};
use vstd::prelude::*;

verus! {

/// Whether `block` is none of the blocks of the nodes `keep`, and a block that
/// can be freed without harm to them: zero, which names no block, or a usable
/// block that is no inode block.
pub open spec fn foreign(inode: Inode, fs: FsState, slot: u32, keep: Set<int>, block: u32) -> bool {
    block == 0 || (usable(fs, block) && fs.entry(block) != BlockArrayEntry::InodeBlock
        && forall|n: int| keep.contains(n) ==> #[trigger] node_block(inode, fs.image, n) != block)
}

/// Whether every usable block that the bitmaps of `a` say is unused is unused in
/// `b` too.
pub open spec fn unused_kept(a: FsState, b: FsState) -> bool {
    forall|block: u32|
        usable(a, block) && a.entry(block) == BlockArrayEntry::Unused ==> #[trigger] b.entry(block)
            == BlockArrayEntry::Unused
}

/// Whether the tree with the nodes `keep` is in `b` what it was in `a`, after
/// blocks outside it were given back: it is a tree in a well-formed filesystem;
/// its nodes have the blocks that they had, and those hold what they held; the
/// slots of inode blocks hold what they held; and no block has become an inode
/// block.
pub open spec fn kept(inode: Inode, a: FsState, b: FsState, slot: u32, keep: Set<int>) -> bool {
    &&& b.wf()
    &&& home(b, slot)
    &&& tree(inode, b, slot, keep)
    &&& b.image.len() == a.image.len()
    &&& same_identity(b.superblock, a.superblock)
    &&& b.superblock.earliest_inode_space == a.superblock.earliest_inode_space
    &&& forall|n: int|
        keep.contains(n) ==> #[trigger] node_block(inode, b.image, n) == node_block(
            inode,
            a.image,
            n,
        ) && b.block(node_block(inode, a.image, n)) == a.block(node_block(inode, a.image, n))
    &&& forall|other: u32|
        home(a, other) ==> home(b, other) && #[trigger] b.inode(other) == a.inode(other)
    &&& forall|block: u32|
        usable(a, block) && a.entry(block) != BlockArrayEntry::InodeBlock ==> #[trigger] b.entry(
            block,
        ) != BlockArrayEntry::InodeBlock
    &&& unused_kept(a, b)
    &&& b.superblock.total_blocks == a.superblock.total_blocks
    &&& a.superblock.earliest_free != 0 ==> b.superblock.earliest_free != 0
}

/// A block that was foreign to a tree is foreign to it still where the tree was
/// kept.
#[verifier::rlimit(100)]
pub proof fn lemma_foreign_still(
    inode: Inode,
    a: FsState,
    b: FsState,
    slot: u32,
    keep: Set<int>,
    block: u32,
)
    requires
        kept(inode, a, b, slot, keep),
        foreign(inode, a, slot, keep, block),
    ensures
        foreign(inode, b, slot, keep, block),
{
    if block != 0 {
        assert(b.entry(block) != BlockArrayEntry::InodeBlock);
        assert forall|n: int| keep.contains(n) implies #[trigger] node_block(inode, b.image, n)
            != block by {
            assert(node_block(inode, a.image, n) != block);
        }
    }
}

/// What is kept twice is kept.
#[verifier::spinoff_prover]
#[verifier::rlimit(100)]
pub proof fn lemma_kept_twice(
    inode: Inode,
    a: FsState,
    b: FsState,
    c: FsState,
    slot: u32,
    keep: Set<int>,
)
    requires
        kept(inode, a, b, slot, keep),
        kept(inode, b, c, slot, keep),
    ensures
        kept(inode, a, c, slot, keep),
{
    assert forall|n: int| keep.contains(n) implies #[trigger] node_block(inode, c.image, n)
        == node_block(inode, a.image, n) && c.block(node_block(inode, a.image, n)) == a.block(
        node_block(inode, a.image, n),
    ) by {
        let x = node_block(inode, a.image, n);
        let y = node_block(inode, b.image, n);
        assert(y == x);
        assert(b.block(x) == a.block(x));
        assert(node_block(inode, c.image, n) == y);
        assert(c.block(y) == b.block(y));
    }
    assert forall|other: u32| home(a, other) implies home(c, other) && #[trigger] c.inode(other)
        == a.inode(other) by {
        assert(b.inode(other) == a.inode(other));
    }
    assert forall|block: u32|
        usable(a, block) && a.entry(block) != BlockArrayEntry::InodeBlock implies #[trigger] c.entry(
        block,
    ) != BlockArrayEntry::InodeBlock by {
        assert(b.entry(block) != BlockArrayEntry::InodeBlock);
    }
    assert forall|block: u32|
        usable(a, block) && a.entry(block) == BlockArrayEntry::Unused implies #[trigger] c.entry(
        block,
    ) == BlockArrayEntry::Unused by {
        assert(b.entry(block) == BlockArrayEntry::Unused);
    }
}

/// What is left alone is kept.
#[verifier::rlimit(100)]
pub proof fn lemma_kept_same(inode: Inode, a: FsState, slot: u32, keep: Set<int>)
    requires
        a.wf(),
        home(a, slot),
        tree(inode, a, slot, keep),
    ensures
        kept(inode, a, a, slot, keep),
{
}

/// Freeing a usable block leaves what every other usable block holds, and what
/// the bitmaps say of it, and the slots of the inode blocks.
#[verifier::spinoff_prover]
#[verifier::rlimit(100)]
proof fn lemma_free_frame(fs: FsState, block: u32)
    requires
        fs.wf(),
        usable(fs, block),
        fs.entry(block) != BlockArrayEntry::InodeBlock,
    ensures
        forall|other: u32|
            usable(fs, other) && other != block ==> #[trigger] fs.free(block).0.block(other)
                == fs.block(other) && fs.free(block).0.entry(other) == fs.entry(other),
        forall|other: u32|
            home(fs, other) ==> home(fs.free(block).0, other) && #[trigger] fs.free(block).0.inode(
                other,
            ) == fs.inode(other),
{
    let after = fs.free(block).0;
    lemma_free(fs, block);
    assert forall|other: u32| usable(fs, other) && other != block implies #[trigger] after.block(
        other,
    ) == fs.block(other) && after.entry(other) == fs.entry(other) by {
        assert forall|j: int| 0 <= j < 4096 implies #[trigger] after.block(other)[j] == fs.block(
            other,
        )[j] by {
            assert((other * 4096 + j) / 4096 == other);
            assert(after.image[other * 4096 + j] == fs.image[other * 4096 + j]);
        }
        assert(after.block(other) =~= fs.block(other));
    }
    assert forall|other: u32| home(fs, other) implies home(after, other) && #[trigger] after.inode(
        other,
    ) == fs.inode(other) by {
        let h = other / 32;
        assert(h != block);
        assert(after.block(h) == fs.block(h));
        assert(after.entry(h) == fs.entry(h));
        crate::tree::lemma_slot_of_block(fs.image, after.image, other);
    }
}

/// What freeing a block that is foreign to a tree does: it succeeds; the tree is
/// kept; the bitmaps say that the block is unused; and every other usable block
/// holds what it held.
#[verifier::spinoff_prover]
#[verifier::rlimit(100)]
pub proof fn lemma_free_outside(inode: Inode, fs: FsState, slot: u32, keep: Set<int>, block: u32)
    requires
        fs.wf(),
        home(fs, slot),
        tree(inode, fs, slot, keep),
        block != 0,
        foreign(inode, fs, slot, keep, block),
    ensures
        fs.free(block).1 is Ok,
        kept(inode, fs, fs.free(block).0, slot, keep),
        fs.free(block).0.entry(block) == BlockArrayEntry::Unused,
        forall|other: u32|
            usable(fs, other) && other != block ==> #[trigger] fs.free(block).0.block(other)
                == fs.block(other) && fs.free(block).0.entry(other) == fs.entry(other),
{
    let after = fs.free(block).0;
    lemma_free(fs, block);
    lemma_free_frame(fs, block);
    assert forall|n: int| keep.contains(n) implies after.entry(
        #[trigger] node_block(inode, fs.image, n),
    ) == BlockArrayEntry::Allocated && after.block(node_block(inode, fs.image, n)) == fs.block(
        node_block(inode, fs.image, n),
    ) by {
        let b = node_block(inode, fs.image, n);
        assert(owned(fs, slot, b));
        assert(after.block(b) == fs.block(b));
    }
    assert(pointers_kept(inode, fs, after, keep));
    lemma_tree_kept(inode, fs, after, slot, keep);
    assert(home(after, slot)) by {
        assert(after.inode(slot) == fs.inode(slot));
    }
    assert forall|b: u32|
        usable(fs, b) && fs.entry(b) != BlockArrayEntry::InodeBlock implies #[trigger] after.entry(
        b,
    ) != BlockArrayEntry::InodeBlock by {
        if b != block {
            assert(after.block(b) == fs.block(b));
        }
    }
    assert forall|b: u32|
        usable(fs, b) && fs.entry(b) == BlockArrayEntry::Unused implies #[trigger] after.entry(b)
        == BlockArrayEntry::Unused by {
        if b != block {
            assert(after.block(b) == fs.block(b));
        }
    }
}

/// What freeing the blocks that entries name does where they are all foreign to
/// a tree: it succeeds; the tree is kept; the bitmaps say that the blocks are
/// unused; and every usable block that no entry names holds what it held.
#[verifier::spinoff_prover]
#[verifier::rlimit(100)]
pub proof fn lemma_release_flat(
    inode: Inode,
    fs: FsState,
    slot: u32,
    keep: Set<int>,
    entries: Seq<u32>,
    i: int,
)
    requires
        fs.wf(),
        home(fs, slot),
        tree(inode, fs, slot, keep),
        0 <= i <= entries.len(),
        forall|e: int| i <= e < entries.len() ==> foreign(inode, fs, slot, keep, #[trigger] entries[e]),
    ensures
        release_entries(fs, entries, i, false).1 is Ok,
        kept(inode, fs, release_entries(fs, entries, i, false).0, slot, keep),
        forall|e: int|
            i <= e < entries.len() && entries[e] != 0 ==> release_entries(
                fs,
                entries,
                i,
                false,
            ).0.entry(#[trigger] entries[e]) == BlockArrayEntry::Unused,
        forall|other: u32|
            usable(fs, other) && (forall|e: int| i <= e < entries.len() ==> entries[e] != other)
                ==> #[trigger] release_entries(fs, entries, i, false).0.block(other) == fs.block(
                other,
            ) && release_entries(fs, entries, i, false).0.entry(other) == fs.entry(other),
    decreases entries.len() - i,
{
    if i >= entries.len() {
        lemma_kept_same(inode, fs, slot, keep);
    } else if entries[i] == 0 {
        lemma_release_flat(inode, fs, slot, keep, entries, i + 1);
        let done = release_entries(fs, entries, i + 1, false).0;
        assert forall|other: u32|
            usable(fs, other) && (forall|e: int| i <= e < entries.len() ==> entries[e] != other)
                implies #[trigger] done.block(other) == fs.block(other) && done.entry(other)
            == fs.entry(other) by {
            assert(forall|e: int| i + 1 <= e < entries.len() ==> entries[e] != other);
        }
    } else {
        let b = entries[i];
        let freed = fs.free(b);
        lemma_free_outside(inode, fs, slot, keep, b);
        assert forall|e: int| i + 1 <= e < entries.len() implies foreign(
            inode,
            freed.0,
            slot,
            keep,
            #[trigger] entries[e],
        ) by {
            lemma_foreign_still(inode, fs, freed.0, slot, keep, entries[e]);
        }
        lemma_release_flat(inode, freed.0, slot, keep, entries, i + 1);
        let done = release_entries(freed.0, entries, i + 1, false).0;
        lemma_kept_twice(inode, fs, freed.0, done, slot, keep);
        assert(freed.0.superblock.total_blocks == fs.superblock.total_blocks);
        assert(freed.0.image.len() == fs.image.len());
        assert forall|e: int| i <= e < entries.len() && entries[e] != 0 implies done.entry(
            #[trigger] entries[e],
        ) == BlockArrayEntry::Unused by {
            if e == i {
                if forall|e2: int| i + 1 <= e2 < entries.len() ==> entries[e2] != b {
                    assert(usable(freed.0, b));
                    assert(done.block(b) == freed.0.block(b));
                } else {
                    let e2 = choose|e2: int| i + 1 <= e2 < entries.len() && entries[e2] == b;
                    assert(done.entry(entries[e2]) == BlockArrayEntry::Unused);
                }
            }
        }
        assert forall|other: u32|
            usable(fs, other) && (forall|e: int| i <= e < entries.len() ==> entries[e] != other)
                implies #[trigger] done.block(other) == fs.block(other) && done.entry(other)
            == fs.entry(other) by {
            assert(entries[i] != other);
            assert(usable(freed.0, other));
            assert(freed.0.block(other) == fs.block(other));
            assert(forall|e: int| i + 1 <= e < entries.len() ==> entries[e] != other);
        }
    }
}

/// Whether node `n` is node `r` or lies below it.
pub open spec fn below(r: int, n: int) -> bool {
    n == r || parent(n) == r || (parent(n) != -1 && parent(parent(n)) == r)
}

/// The nodes `live` without node `r` and those below it.
pub open spec fn without(live: Set<int>, r: int) -> Set<int> {
    Set::new(|n: int| live.contains(n) && !below(r, n))
}

/// A node outside the part of a tree that is cut off below a pointer of the
/// inode has its pointer where it had it once that pointer is zero.
#[verifier::rlimit(100)]
proof fn lemma_beside_cut(inode: Inode, img: Seq<u8>, r: int, n: int)
    requires
        is_node(r),
        parent(r) == -1,
        is_node(n),
        n != r,
        parent(n) == -1 || !below(r, parent(n)),
    ensures
        node_block(with_field(inode, position(r), 0), img, n) == node_block(inode, img, n),
{
    let cut = with_field(inode, position(r), 0);
    if parent(n) == -1 {
        if position(n) == position(r) {
            lemma_node_of_place(n, r);
        }
    }
}

/// A tree without the part below one of the pointers of the inode is a tree once
/// that pointer is zero, and the blocks of that part are foreign to it.
#[verifier::spinoff_prover]
#[verifier::rlimit(100)]
pub proof fn lemma_cut(inode: Inode, fs: FsState, slot: u32, live: Set<int>, r: int)
    requires
        tree(inode, fs, slot, live),
        live.contains(r),
        parent(r) == -1,
    ensures
        tree(with_field(inode, position(r), 0), fs, slot, without(live, r)),
        forall|n: int|
            without(live, r).contains(n) ==> #[trigger] node_block(
                with_field(inode, position(r), 0),
                fs.image,
                n,
            ) == node_block(inode, fs.image, n),
        forall|n: int|
            live.contains(n) && below(r, n) ==> foreign(
                with_field(inode, position(r), 0),
                fs,
                slot,
                without(live, r),
                #[trigger] node_block(inode, fs.image, n),
            ),
{
    let cut = with_field(inode, position(r), 0);
    let keep = without(live, r);
    let img = fs.image;
    assert forall|n: int| is_node(n) && n != r && (parent(n) == -1 || !below(r, parent(n)))
        implies #[trigger] node_block(cut, img, n) == node_block(inode, img, n) by {
        lemma_beside_cut(inode, img, r, n);
    }
    assert forall|n: int| keep.contains(n) implies owned(fs, slot, #[trigger] node_block(cut, img, n)) by {
        assert(owned(fs, slot, node_block(inode, img, n)));
    }
    assert forall|n: int|
        is_node(n) && !keep.contains(n) && (parent(n) == -1 || keep.contains(parent(n)))
            implies #[trigger] node_block(cut, img, n) == 0 by {
        if n != r {
            if live.contains(n) {
                assert(below(r, n));
                assert(false);
            }
            assert(node_block(inode, img, n) == 0);
        }
    }
    assert forall|n: int| live.contains(n) && below(r, n) implies foreign(
        cut,
        fs,
        slot,
        keep,
        #[trigger] node_block(inode, img, n),
    ) by {
        let b = node_block(inode, img, n);
        assert(owned(fs, slot, b));
        assert forall|m: int| keep.contains(m) implies #[trigger] node_block(cut, img, m) != b by {
            assert(node_block(inode, img, m) != node_block(inode, img, n));
        }
    }
}

/// Whether the tree of an inode has shrunk from the nodes `live` to the nodes
/// `keep`: it is a tree in a well-formed filesystem; the nodes that are left have
/// the blocks that they had, and the blocks of content among them hold what they
/// held; the bitmaps say that
/// the blocks of the nodes that are gone are unused; and the slots of inode
/// blocks hold what they held.
pub open spec fn shrank(
    inode: Inode,
    fs: FsState,
    slot: u32,
    live: Set<int>,
    inode2: Inode,
    fs2: FsState,
    keep: Set<int>,
) -> bool {
    &&& fs2.wf()
    &&& home(fs2, slot)
    &&& tree(inode2, fs2, slot, keep)
    &&& keep.subset_of(live)
    &&& fs2.image.len() == fs.image.len()
    &&& same_identity(fs2.superblock, fs.superblock)
    &&& fs2.superblock.earliest_inode_space == fs.superblock.earliest_inode_space
    &&& forall|n: int|
        keep.contains(n) ==> #[trigger] node_block(inode2, fs2.image, n) == node_block(
            inode,
            fs.image,
            n,
        ) && (n < MAX_BLOCKS ==> fs2.block(node_block(inode, fs.image, n)) == fs.block(
            node_block(inode, fs.image, n),
        ))
    &&& forall|n: int|
        live.contains(n) && !keep.contains(n) ==> fs2.entry(
            #[trigger] node_block(inode, fs.image, n),
        ) == BlockArrayEntry::Unused
    &&& forall|other: u32|
        home(fs, other) ==> home(fs2, other) && #[trigger] fs2.inode(other) == fs.inode(other)
    &&& inode2.type_and_permission == inode.type_and_permission
    &&& inode2.meta == inode.meta
    &&& inode2.hardlinks == inode.hardlinks
    &&& unused_kept(fs, fs2)
    &&& fs2.superblock.total_blocks == fs.superblock.total_blocks
    &&& fs.superblock.earliest_free != 0 ==> fs2.superblock.earliest_free != 0
}

/// A tree that has shrunk twice has shrunk.
#[verifier::spinoff_prover]
#[verifier::rlimit(100)]
pub proof fn lemma_shrank_twice(
    inode: Inode,
    fs: FsState,
    slot: u32,
    live: Set<int>,
    inode2: Inode,
    fs2: FsState,
    live2: Set<int>,
    inode3: Inode,
    fs3: FsState,
    live3: Set<int>,
)
    requires
        tree(inode, fs, slot, live),
        shrank(inode, fs, slot, live, inode2, fs2, live2),
        shrank(inode2, fs2, slot, live2, inode3, fs3, live3),
    ensures
        shrank(inode, fs, slot, live, inode3, fs3, live3),
{
    assert forall|n: int| live3.contains(n) implies #[trigger] node_block(inode3, fs3.image, n)
        == node_block(inode, fs.image, n) && (n < MAX_BLOCKS ==> fs3.block(
        node_block(inode, fs.image, n),
    ) == fs.block(node_block(inode, fs.image, n))) by {
        let x = node_block(inode, fs.image, n);
        let y = node_block(inode2, fs2.image, n);
        assert(live2.contains(n));
        assert(y == x);
        assert(node_block(inode3, fs3.image, n) == y);
        if n < MAX_BLOCKS {
            assert(fs2.block(x) == fs.block(x));
            assert(fs3.block(y) == fs2.block(y));
        }
    }
    assert forall|n: int| live.contains(n) && !live3.contains(n) implies fs3.entry(
        #[trigger] node_block(inode, fs.image, n),
    ) == BlockArrayEntry::Unused by {
        let x = node_block(inode, fs.image, n);
        if live2.contains(n) {
            assert(node_block(inode2, fs2.image, n) == x);
            assert(fs3.entry(node_block(inode2, fs2.image, n)) == BlockArrayEntry::Unused);
        } else {
            // the block was given back before, and no node that was left had it
            assert(fs2.entry(x) == BlockArrayEntry::Unused);
            assert(owned(fs, slot, x));
            lemma_unused_stays(inode2, fs2, slot, live2, inode3, fs3, live3, x);
        }
    }
    assert forall|other: u32| home(fs, other) implies home(fs3, other) && #[trigger] fs3.inode(
        other,
    ) == fs.inode(other) by {
        assert(fs2.inode(other) == fs.inode(other));
    }
    assert forall|block: u32|
        usable(fs, block) && fs.entry(block) == BlockArrayEntry::Unused implies #[trigger] fs3.entry(
        block,
    ) == BlockArrayEntry::Unused by {
        assert(fs2.entry(block) == BlockArrayEntry::Unused);
    }
}

/// A block that the bitmaps say is unused is unused still after a tree has
/// shrunk.
#[verifier::rlimit(100)]
proof fn lemma_unused_stays(
    inode: Inode,
    fs: FsState,
    slot: u32,
    live: Set<int>,
    inode2: Inode,
    fs2: FsState,
    keep: Set<int>,
    block: u32,
)
    requires
        shrank(inode, fs, slot, live, inode2, fs2, keep),
        usable(fs, block),
        fs.entry(block) == BlockArrayEntry::Unused,
    ensures
        fs2.entry(block) == BlockArrayEntry::Unused,
{
}

/// A tree has shrunk, by nothing, where it was left alone.
#[verifier::rlimit(100)]
pub proof fn lemma_shrank_not(inode: Inode, fs: FsState, slot: u32, live: Set<int>)
    requires
        fs.wf(),
        home(fs, slot),
        tree(inode, fs, slot, live),
    ensures
        shrank(inode, fs, slot, live, inode, fs, live),
{
}

/// A tree has shrunk by the part below one of the pointers of the inode once
/// that pointer is zero, the rest was kept, and the bitmaps say that the blocks
/// of that part are unused.
#[verifier::spinoff_prover]
#[verifier::rlimit(100)]
proof fn lemma_cut_off(inode: Inode, fs: FsState, slot: u32, live: Set<int>, r: int, fs2: FsState)
    requires
        tree(inode, fs, slot, live),
        live.contains(r),
        parent(r) == -1,
        kept(with_field(inode, position(r), 0), fs, fs2, slot, without(live, r)),
        forall|n: int|
            live.contains(n) && below(r, n) ==> fs2.entry(#[trigger] node_block(inode, fs.image, n))
                == BlockArrayEntry::Unused,
    ensures
        shrank(inode, fs, slot, live, with_field(inode, position(r), 0), fs2, without(live, r)),
{
    let cut = with_field(inode, position(r), 0);
    let keep = without(live, r);
    lemma_cut(inode, fs, slot, live, r);
    assert forall|n: int| keep.contains(n) implies #[trigger] node_block(cut, fs2.image, n)
        == node_block(inode, fs.image, n) && (n < MAX_BLOCKS ==> fs2.block(
        node_block(inode, fs.image, n),
    ) == fs.block(node_block(inode, fs.image, n))) by {
        let x = node_block(cut, fs.image, n);
        assert(x == node_block(inode, fs.image, n));
        assert(node_block(cut, fs2.image, n) == x);
        assert(fs2.block(x) == fs.block(x));
    }
}

/// The nodes `live` without the direct nodes from `i` on.
pub open spec fn without_direct(live: Set<int>, i: int) -> Set<int> {
    Set::new(|n: int| live.contains(n) && !(i <= n < 10))
}

/// What freeing the blocks of the direct pointers from `i` on does to a tree: it
/// succeeds, and the tree shrinks by the direct nodes from `i` on.
#[verifier::spinoff_prover]
#[verifier::rlimit(100)]
pub proof fn lemma_drop_direct(inode: Inode, fs: FsState, slot: u32, live: Set<int>, i: u32)
    requires
        fs.wf(),
        home(fs, slot),
        tree(inode, fs, slot, live),
    ensures
        inode.drop_direct(fs, i).2 is Ok,
        shrank(
            inode,
            fs,
            slot,
            live,
            inode.drop_direct(fs, i).1,
            inode.drop_direct(fs, i).0,
            without_direct(live, i as int),
        ),
    decreases 10 - i,
{
    if i >= 10 {
        lemma_shrank_not(inode, fs, slot, live);
        assert(without_direct(live, i as int) =~= live);
    } else {
        let pointer = inode.block_pointers@[i as int];
        assert(node_block(inode, fs.image, i as int) == pointer);
        if pointer == 0 {
            if live.contains(i as int) {
                assert(owned(fs, slot, node_block(inode, fs.image, i as int)));
            }
            lemma_drop_direct(inode, fs, slot, live, (i + 1) as u32);
            assert(without_direct(live, i + 1) =~= without_direct(live, i as int));
        } else {
            assert(live.contains(i as int));
            let cut = inode.with_pointer(i as int, 0);
            assert(cut == with_field(inode, position(i as int), 0));
            let keep = without(live, i as int);
            lemma_cut(inode, fs, slot, live, i as int);
            let freed = fs.free(pointer);
            lemma_free_outside(cut, fs, slot, keep, pointer);
            assert forall|n: int| live.contains(n) && below(i as int, n) implies freed.0.entry(
                #[trigger] node_block(inode, fs.image, n),
            ) == BlockArrayEntry::Unused by {
                assert(n == i);
            }
            lemma_cut_off(inode, fs, slot, live, i as int, freed.0);
            lemma_drop_direct(cut, freed.0, slot, keep, (i + 1) as u32);
            let d = cut.drop_direct(freed.0, (i + 1) as u32);
            lemma_shrank_twice(
                inode,
                fs,
                slot,
                live,
                cut,
                freed.0,
                keep,
                d.1,
                d.0,
                without_direct(keep, i + 1),
            );
            assert(without_direct(keep, i + 1) =~= without_direct(live, i as int));
        }
    }
}

/// What freeing the singly indirect block after the blocks that it names does to
/// a tree: it succeeds, and the tree shrinks by the nodes of those blocks.
#[verifier::spinoff_prover]
#[verifier::rlimit(100)]
pub proof fn lemma_drop_singly(inode: Inode, fs: FsState, slot: u32, live: Set<int>)
    requires
        fs.wf(),
        home(fs, slot),
        tree(inode, fs, slot, live),
    ensures
        inode.drop_singly(fs).2 is Ok,
        shrank(
            inode,
            fs,
            slot,
            live,
            inode.drop_singly(fs).1,
            inode.drop_singly(fs).0,
            without(live, singly_node()),
        ),
{
    reveal(Inode::drop_singly);
    let r = singly_node();
    let table = inode.singly_indirect_block_pointer;
    assert(node_block(inode, fs.image, r) == table);
    if table == 0 {
        if live.contains(r) {
            assert(owned(fs, slot, node_block(inode, fs.image, r)));
        }
        lemma_shrank_not(inode, fs, slot, live);
        assert(without(live, r) =~= live) by {
            assert forall|n: int| live.contains(n) implies !below(r, n) by {
                if parent(n) != -1 {
                    assert(live.contains(parent(n)));
                }
            }
        }
    } else {
        assert(live.contains(r));
        assert(owned(fs, slot, table));
        let cut = Inode { singly_indirect_block_pointer: 0, ..inode };
        assert(cut == with_field(inode, position(r), 0));
        let keep = without(live, r);
        lemma_cut(inode, fs, slot, live, r);
        let entries = table_entries(fs.image, table);
        assert forall|e: int| 0 <= e < entries.len() implies foreign(
            cut,
            fs,
            slot,
            keep,
            #[trigger] entries[e],
        ) by {
            let n = 10 + e;
            lemma_node_in_parent(inode, fs.image, n);
            assert(entries[e] == node_block(inode, fs.image, n));
            if !live.contains(n) {
                assert(node_block(inode, fs.image, n) == 0);
            }
        }
        lemma_release_flat(cut, fs, slot, keep, entries, 0);
        let released = release_entries(fs, entries, 0, false);
        assert(release_table(fs, table, false) == released);
        lemma_foreign_still(cut, fs, released.0, slot, keep, table);
        lemma_free_outside(cut, released.0, slot, keep, table);
        let freed = released.0.free(table);
        lemma_kept_twice(cut, fs, released.0, freed.0, slot, keep);
        assert forall|n: int| live.contains(n) && below(r, n) implies freed.0.entry(
            #[trigger] node_block(inode, fs.image, n),
        ) == BlockArrayEntry::Unused by {
            if n != r {
                assert(parent(n) == r);
                let e = n - 10;
                lemma_node_in_parent(inode, fs.image, n);
                assert(entries[e] == node_block(inode, fs.image, n));
                assert(owned(fs, slot, entries[e]));
                assert(released.0.entry(entries[e]) == BlockArrayEntry::Unused);
                assert(usable(released.0, entries[e]));
            }
        }
        lemma_cut_off(inode, fs, slot, live, r, freed.0);
    }
}

/// The entries of a pointer block are the same in two images in which the block
/// holds the same.
#[verifier::rlimit(100)]
proof fn lemma_same_table(a: Seq<u8>, b: Seq<u8>, table: u32)
    requires
        span(a, table * 4096, 4096) == span(b, table * 4096, 4096),
    ensures
        table_entries(a, table) == table_entries(b, table),
{
    assert forall|e: int| 0 <= e < 1024 implies table_entries(a, table)[e] == table_entries(
        b,
        table,
    )[e] by {
        crate::tree::lemma_entry_of_same_block(a, b, table, e);
    }
    assert(table_entries(a, table) =~= table_entries(b, table));
}

/// Whether node `n` is the node of the singly indirect block that an entry from
/// `j` on of the doubly indirect block names, or the node of a block of content
/// that such a block names.
pub open spec fn from_entry(j: int, n: int) -> bool {
    (inner_node(j) <= n < inner_node(1024)) || (1034 <= n < MAX_BLOCKS && (n - 10) / 1024 >= j)
}

/// The entries of the singly indirect block of node `inner_node(j)` are the
/// pointers of the nodes below it: blocks that are foreign to the tree without
/// the part below the doubly indirect block, or zero.
#[verifier::spinoff_prover]
#[verifier::rlimit(100)]
proof fn lemma_inner_entries(inode: Inode, fs: FsState, slot: u32, live: Set<int>, j: int, e: int)
    requires
        tree(inode, fs, slot, live),
        live.contains(doubly_node()),
        1 <= j < 1024,
        live.contains(inner_node(j)),
        0 <= e < 1024,
    ensures
        ({
            let table = node_block(inode, fs.image, inner_node(j));
            let entry = table_entries(fs.image, table)[e];
            let c = 1024 * j + 10 + e;
            &&& entry == node_block(inode, fs.image, c)
            &&& parent(c) == inner_node(j)
            &&& live.contains(c) ==> owned(fs, slot, entry)
            &&& !live.contains(c) ==> entry == 0
            &&& foreign(
                Inode { doubly_indirect_block_pointer: 0, ..inode },
                fs,
                slot,
                without(live, doubly_node()),
                entry,
            )
            &&& forall|n: int| live.contains(n) && n != c ==> #[trigger] node_block(inode, fs.image, n)
                != entry
        }),
{
    let top = doubly_node();
    let cut = Inode { doubly_indirect_block_pointer: 0, ..inode };
    assert(cut == with_field(inode, position(top), 0));
    let c = 1024 * j + 10 + e;
    lemma_cut(inode, fs, slot, live, top);
    lemma_node_in_parent(inode, fs.image, c);
    let entry = node_block(inode, fs.image, c);
    if live.contains(c) {
        assert(owned(fs, slot, entry));
        assert(below(top, c));
        assert forall|n: int| live.contains(n) && n != c implies #[trigger] node_block(
            inode,
            fs.image,
            n,
        ) != entry by {}
    } else {
        assert(entry == 0);
        assert forall|n: int| live.contains(n) && n != c implies #[trigger] node_block(
            inode,
            fs.image,
            n,
        ) != entry by {
            assert(owned(fs, slot, node_block(inode, fs.image, n)));
        }
    }
}

/// What freeing a singly indirect block that the doubly indirect block names,
/// after the blocks that it names, does while the tree without the part below the
/// doubly indirect block is kept: it succeeds; that tree is kept; the bitmaps say
/// that the blocks are unused; and the singly indirect blocks that later entries
/// name hold what they held.
#[verifier::spinoff_prover]
#[verifier::rlimit(100)]
proof fn lemma_release_inner(
    inode: Inode,
    fs: FsState,
    now: FsState,
    slot: u32,
    live: Set<int>,
    j: int,
)
    requires
        fs.wf(),
        tree(inode, fs, slot, live),
        live.contains(doubly_node()),
        kept(
            Inode { doubly_indirect_block_pointer: 0, ..inode },
            fs,
            now,
            slot,
            without(live, doubly_node()),
        ),
        1 <= j < 1024,
        live.contains(inner_node(j)),
        forall|j2: int|
            j <= j2 < 1024 && live.contains(inner_node(j2)) ==> now.block(
                #[trigger] node_block(inode, fs.image, inner_node(j2)),
            ) == fs.block(node_block(inode, fs.image, inner_node(j2))),
    ensures
        ({
            let table = node_block(inode, fs.image, inner_node(j));
            let a = release_table(now, table, false);
            let b = a.0.free(table);
            &&& a.1 is Ok
            &&& b.1 is Ok
            &&& kept(
                Inode { doubly_indirect_block_pointer: 0, ..inode },
                fs,
                b.0,
                slot,
                without(live, doubly_node()),
            )
            &&& unused_kept(now, b.0)
            &&& forall|n: int|
                live.contains(n) && (n == inner_node(j) || parent(n) == inner_node(j)) ==> b.0.entry(
                    #[trigger] node_block(inode, fs.image, n),
                ) == BlockArrayEntry::Unused
            &&& forall|j2: int|
                j + 1 <= j2 < 1024 && live.contains(inner_node(j2)) ==> b.0.block(
                    #[trigger] node_block(inode, fs.image, inner_node(j2)),
                ) == fs.block(node_block(inode, fs.image, inner_node(j2)))
        }),
{
    let top = doubly_node();
    let cut = Inode { doubly_indirect_block_pointer: 0, ..inode };
    assert(cut == with_field(inode, position(top), 0));
    let keep = without(live, top);
    let node = inner_node(j);
    let table = node_block(inode, fs.image, node);
    lemma_cut(inode, fs, slot, live, top);
    assert(owned(fs, slot, table));
    assert(below(top, node));
    assert(now.block(table) == fs.block(table));
    lemma_same_table(now.image, fs.image, table);
    let below_table = table_entries(now.image, table);
    assert forall|e: int| 0 <= e < below_table.len() implies foreign(
        cut,
        now,
        slot,
        keep,
        #[trigger] below_table[e],
    ) by {
        lemma_inner_entries(inode, fs, slot, live, j, e);
        lemma_foreign_still(cut, fs, now, slot, keep, below_table[e]);
    }
    lemma_release_flat(cut, now, slot, keep, below_table, 0);
    let a = release_entries(now, below_table, 0, false);
    assert(release_table(now, table, false) == a);
    lemma_kept_twice(cut, fs, now, a.0, slot, keep);
    lemma_foreign_still(cut, fs, a.0, slot, keep, table);
    lemma_free_outside(cut, a.0, slot, keep, table);
    let b = a.0.free(table);
    lemma_kept_twice(cut, fs, a.0, b.0, slot, keep);
    assert forall|j2: int| j + 1 <= j2 < 1024 && live.contains(inner_node(j2)) implies b.0.block(
        #[trigger] node_block(inode, fs.image, inner_node(j2)),
    ) == fs.block(node_block(inode, fs.image, inner_node(j2))) by {
        let other = node_block(inode, fs.image, inner_node(j2));
        assert(owned(fs, slot, other));
        assert(other != table);
        assert forall|e: int| 0 <= e < below_table.len() implies below_table[e] != other by {
            lemma_inner_entries(inode, fs, slot, live, j, e);
        }
        assert(usable(now, other));
        assert(a.0.block(other) == now.block(other));
        assert(usable(a.0, other));
        assert(b.0.block(other) == a.0.block(other));
    }
    assert forall|n: int|
        live.contains(n) && (n == node || parent(n) == node) implies b.0.entry(
        #[trigger] node_block(inode, fs.image, n),
    ) == BlockArrayEntry::Unused by {
        let x = node_block(inode, fs.image, n);
        assert(owned(fs, slot, x));
        if n != node {
            let e = n - (1024 * j + 10);
            lemma_inner_entries(inode, fs, slot, live, j, e);
            assert(below_table[e] == x);
            assert(a.0.entry(below_table[e]) == BlockArrayEntry::Unused);
            assert(usable(a.0, x));
        }
    }
    assert forall|block: u32|
        usable(now, block) && now.entry(block) == BlockArrayEntry::Unused implies #[trigger] b.0.entry(
        block,
    ) == BlockArrayEntry::Unused by {
        assert(a.0.entry(block) == BlockArrayEntry::Unused);
        assert(usable(a.0, block));
    }
}

/// What freeing the blocks that the entries from `j` on of the doubly indirect
/// block lead to does, while the tree without the part below that block is kept:
/// it succeeds; that tree is kept; and the bitmaps say that the blocks are
/// unused.
#[verifier::spinoff_prover]
#[verifier::rlimit(100)]
proof fn lemma_release_deep(
    inode: Inode,
    fs: FsState,
    now: FsState,
    slot: u32,
    live: Set<int>,
    j: int,
)
    requires
        fs.wf(),
        tree(inode, fs, slot, live),
        live.contains(doubly_node()),
        !live.contains(inner_node(0)),
        kept(
            Inode { doubly_indirect_block_pointer: 0, ..inode },
            fs,
            now,
            slot,
            without(live, doubly_node()),
        ),
        0 <= j <= 1024,
        forall|j2: int|
            j <= j2 < 1024 && live.contains(inner_node(j2)) ==> now.block(
                #[trigger] node_block(inode, fs.image, inner_node(j2)),
            ) == fs.block(node_block(inode, fs.image, inner_node(j2))),
    ensures
        ({
            let entries = table_entries(fs.image, inode.doubly_indirect_block_pointer);
            let r = release_entries(now, entries, j, true);
            &&& r.1 is Ok
            &&& kept(
                Inode { doubly_indirect_block_pointer: 0, ..inode },
                fs,
                r.0,
                slot,
                without(live, doubly_node()),
            )
            &&& unused_kept(now, r.0)
            &&& forall|n: int|
                live.contains(n) && from_entry(j, n) ==> r.0.entry(
                    #[trigger] node_block(inode, fs.image, n),
                ) == BlockArrayEntry::Unused
        }),
    decreases 1024 - j,
{
    let doubly = inode.doubly_indirect_block_pointer;
    let entries = table_entries(fs.image, doubly);
    if j < 1024 {
        let node = inner_node(j);
        let table = entries[j];
        lemma_node_in_parent(inode, fs.image, node);
        assert(table == node_block(inode, fs.image, node));
        if table == 0 {
            if live.contains(node) {
                assert(owned(fs, slot, node_block(inode, fs.image, node)));
            }
            lemma_release_deep(inode, fs, now, slot, live, j + 1);
            let r = release_entries(now, entries, j + 1, true);
            assert forall|n: int| live.contains(n) && from_entry(j, n) implies r.0.entry(
                #[trigger] node_block(inode, fs.image, n),
            ) == BlockArrayEntry::Unused by {
                if !from_entry(j + 1, n) {
                    if n != node {
                        assert(parent(n) == node);
                        assert(live.contains(parent(n)));
                    }
                }
            }
        } else {
            assert(live.contains(node));
            assert(j >= 1);
            lemma_release_inner(inode, fs, now, slot, live, j);
            let a = release_table(now, table, false);
            let b = a.0.free(table);
            lemma_release_deep(inode, fs, b.0, slot, live, j + 1);
            let r = release_entries(b.0, entries, j + 1, true);
            assert(release_entries(now, entries, j, true) == r);
            assert forall|n: int| live.contains(n) && from_entry(j, n) implies r.0.entry(
                #[trigger] node_block(inode, fs.image, n),
            ) == BlockArrayEntry::Unused by {
                if !from_entry(j + 1, n) {
                    let x = node_block(inode, fs.image, n);
                    assert(owned(fs, slot, x));
                    assert(n == node || parent(n) == node);
                    assert(b.0.entry(x) == BlockArrayEntry::Unused);
                    assert(usable(b.0, x));
                }
            }
            assert forall|block: u32|
                usable(now, block) && now.entry(block) == BlockArrayEntry::Unused implies #[trigger] r.0.entry(
                block,
            ) == BlockArrayEntry::Unused by {
                assert(b.0.entry(block) == BlockArrayEntry::Unused);
                assert(usable(b.0, block));
            }
        }
    }
}

/// What freeing the doubly indirect block after all that it leads to does to a
/// tree: it succeeds, and the tree shrinks by the nodes of those blocks.
#[verifier::spinoff_prover]
#[verifier::rlimit(100)]
pub proof fn lemma_drop_doubly(inode: Inode, fs: FsState, slot: u32, live: Set<int>)
    requires
        fs.wf(),
        home(fs, slot),
        tree(inode, fs, slot, live),
        !live.contains(inner_node(0)),
    ensures
        inode.drop_doubly(fs).2 is Ok,
        shrank(
            inode,
            fs,
            slot,
            live,
            inode.drop_doubly(fs).1,
            inode.drop_doubly(fs).0,
            without(live, doubly_node()),
        ),
{
    reveal(Inode::drop_doubly);
    let r = doubly_node();
    let table = inode.doubly_indirect_block_pointer;
    assert(node_block(inode, fs.image, r) == table);
    if table == 0 {
        if live.contains(r) {
            assert(owned(fs, slot, node_block(inode, fs.image, r)));
        }
        lemma_shrank_not(inode, fs, slot, live);
        assert(without(live, r) =~= live) by {
            assert forall|n: int| live.contains(n) implies !below(r, n) by {
                if parent(n) != -1 {
                    assert(live.contains(parent(n)));
                    if parent(parent(n)) != -1 {
                        assert(live.contains(parent(parent(n))));
                    }
                }
            }
        }
    } else {
        assert(live.contains(r));
        assert(owned(fs, slot, table));
        let cut = Inode { doubly_indirect_block_pointer: 0, ..inode };
        assert(cut == with_field(inode, position(r), 0));
        let keep = without(live, r);
        lemma_cut(inode, fs, slot, live, r);
        lemma_kept_same(cut, fs, slot, keep);
        let entries = table_entries(fs.image, table);
        lemma_release_deep(inode, fs, fs, slot, live, 0);
        let released = release_entries(fs, entries, 0, true);
        assert(release_table(fs, table, true) == released);
        lemma_foreign_still(cut, fs, released.0, slot, keep, table);
        lemma_free_outside(cut, released.0, slot, keep, table);
        let freed = released.0.free(table);
        lemma_kept_twice(cut, fs, released.0, freed.0, slot, keep);
        assert forall|n: int| live.contains(n) && below(r, n) implies freed.0.entry(
            #[trigger] node_block(inode, fs.image, n),
        ) == BlockArrayEntry::Unused by {
            if n != r {
                assert(from_entry(0, n));
                let x = node_block(inode, fs.image, n);
                assert(owned(fs, slot, x));
                assert(released.0.entry(x) == BlockArrayEntry::Unused);
                assert(usable(released.0, x));
            }
        }
        lemma_cut_off(inode, fs, slot, live, r, freed.0);
    }
}

/// Whether image `b` holds what image `a` holds but for the four bytes of entry
/// `e` of the pointer block `table`.
pub open spec fn agrees_except(a: Seq<u8>, b: Seq<u8>, table: u32, e: int) -> bool {
    &&& a.len() == b.len()
    &&& forall|at: int|
        0 <= at < a.len() && !(table * 4096 + 4 * e <= at < table * 4096 + 4 * e + 4)
            ==> #[trigger] b[at] == a[at]
}

/// An entry other than the one that changed is what it was.
#[verifier::rlimit(100)]
proof fn lemma_entry_beside(a: Seq<u8>, b: Seq<u8>, table: u32, e: int, block: u32, pos: int)
    requires
        agrees_except(a, b, table, e),
        0 <= pos < 1024,
        0 <= e < 1024,
        block != table || pos != e,
        block * 4096 + 4096 <= a.len(),
    ensures
        tree_entry(b, block, pos) == tree_entry(a, block, pos),
{
    let at = block * 4096 + 4 * pos;
    assert(b[at] == a[at] && b[at + 1] == a[at + 1] && b[at + 2] == a[at + 2] && b[at + 3] == a[at
        + 3]);
    crate::tree::lemma_entry_kept(a, b, block, pos);
}

/// While the pointer of a node in a pointer block is set to zero, every node
/// outside the part below it keeps its pointer.
#[verifier::spinoff_prover]
#[verifier::rlimit(100)]
proof fn lemma_beside_zeroed(
    inode: Inode,
    fs: FsState,
    slot: u32,
    live: Set<int>,
    r: int,
    img: Seq<u8>,
    n: int,
)
    requires
        fs.wf(),
        tree(inode, fs, slot, live),
        live.contains(r),
        parent(r) != -1,
        agrees_except(fs.image, img, node_block(inode, fs.image, parent(r)), position(r)),
        is_node(n),
        n != r,
        parent(n) == -1 || (live.contains(parent(n)) && !below(r, parent(n))),
    ensures
        node_block(inode, img, n) == node_block(inode, fs.image, n),
{
    let p = parent(n);
    let t = node_block(inode, fs.image, parent(r));
    lemma_node_in_parent(inode, fs.image, r);
    if p != -1 {
        lemma_node_in_parent(inode, fs.image, n);
        lemma_node_in_parent(inode, img, n);
        if parent(p) != -1 {
            lemma_node_in_parent(inode, fs.image, p);
            lemma_node_in_parent(inode, img, p);
            let d = node_block(inode, fs.image, parent(p));
            assert(live.contains(parent(p)));
            assert(owned(fs, slot, d));
            assert(live.contains(parent(r)));
            if d == t && position(p) == position(r) {
                assert(parent(p) == parent(r));
                lemma_node_of_place(p, r);
            }
            lemma_entry_beside(fs.image, img, t, position(r), d, position(p));
        }
        let b = node_block(inode, fs.image, p);
        assert(node_block(inode, img, p) == b);
        assert(owned(fs, slot, b));
        assert(live.contains(parent(r)));
        if b == t && position(n) == position(r) {
            assert(p == parent(r));
            lemma_node_of_place(n, r);
        }
        lemma_entry_beside(fs.image, img, t, position(r), b, position(n));
    }
}

/// Whether `z` is `fs` after the pointer of node `r` in its pointer block was set
/// to zero: the tree without the part below `r` is a tree in `z`, with the blocks
/// that its nodes had; every block but that pointer block holds what it held; the
/// bitmaps and the slots of inode blocks are as they were; and the blocks of the
/// part below `r` are foreign to the tree.
pub open spec fn unlinked(
    inode: Inode,
    fs: FsState,
    z: FsState,
    slot: u32,
    live: Set<int>,
    r: int,
) -> bool {
    &&& z.wf()
    &&& home(z, slot)
    &&& z.superblock == fs.superblock
    &&& z.image.len() == fs.image.len()
    &&& tree(inode, z, slot, without(live, r))
    &&& forall|n: int|
        without(live, r).contains(n) ==> #[trigger] node_block(inode, z.image, n) == node_block(
            inode,
            fs.image,
            n,
        )
    &&& forall|block: u32|
        usable(fs, block) && block != node_block(inode, fs.image, parent(r)) ==> #[trigger] z.block(
            block,
        ) == fs.block(block)
    &&& forall|c: u32| c < fs.superblock.total_blocks ==> #[trigger] z.entry(c) == fs.entry(c)
    &&& forall|other: u32|
        home(fs, other) ==> home(z, other) && #[trigger] z.inode(other) == fs.inode(other)
    &&& forall|n: int|
        live.contains(n) && below(r, n) ==> foreign(
            inode,
            z,
            slot,
            without(live, r),
            #[trigger] node_block(inode, fs.image, n),
        )
}

/// Setting the pointer of a node in its pointer block to zero succeeds, and cuts
/// the part below the node off the tree.
#[verifier::spinoff_prover]
#[verifier::rlimit(100)]
pub proof fn lemma_unlink(inode: Inode, fs: FsState, slot: u32, live: Set<int>, r: int)
    requires
        fs.wf(),
        home(fs, slot),
        tree(inode, fs, slot, live),
        live.contains(r),
        parent(r) != -1,
    ensures
        fs.put_u32(
            crate::inode::entry_addr(node_block(inode, fs.image, parent(r)), position(r)),
            0,
        ).1 is Ok,
        unlinked(
            inode,
            fs,
            fs.put_u32(
                crate::inode::entry_addr(node_block(inode, fs.image, parent(r)), position(r)),
                0,
            ).0,
            slot,
            live,
            r,
        ),
{
    let table = node_block(inode, fs.image, parent(r));
    let e = position(r);
    let at = crate::inode::entry_addr(table, e);
    let z = fs.put_u32(at, 0).0;
    let keep = without(live, r);
    let img = z.image;
    assert(live.contains(parent(r)));
    assert(owned(fs, slot, table));
    lemma_node_in_parent(inode, fs.image, r);
    crate::allocation::lemma_write_keeps_entries(fs, table, 4 * e, crate::codec::le_bytes(0, 4));
    assert(agrees_except(fs.image, img, table, e));
    assert(img.subrange(at, at + 4) =~= crate::codec::le_bytes(0, 4));
    crate::codec::lemma_le_u32_round_trip(img, at, 0);
    assert(tree_entry(img, table, e) == 0);
    assert forall|n: int|
        is_node(n) && n != r && (parent(n) == -1 || (live.contains(parent(n)) && !below(
            r,
            parent(n),
        ))) implies #[trigger] node_block(inode, img, n) == node_block(inode, fs.image, n) by {
        lemma_beside_zeroed(inode, fs, slot, live, r, img, n);
    }
    assert forall|n: int| keep.contains(n) implies #[trigger] node_block(inode, img, n)
        == node_block(inode, fs.image, n) by {
        if parent(n) != -1 {
            assert(live.contains(parent(n)));
        }
    }
    assert forall|n: int| keep.contains(n) implies is_node(n) && (parent(n) == -1 || keep.contains(
        parent(n),
    )) by {
        if parent(n) != -1 {
            assert(live.contains(parent(n)));
        }
    }
    assert forall|n: int| keep.contains(n) implies owned(z, slot, #[trigger] node_block(inode, img, n)) by {
        let b = node_block(inode, fs.image, n);
        assert(owned(fs, slot, b));
        assert(z.entry(b) == fs.entry(b));
    }
    assert forall|n1: int, n2: int|
        keep.contains(n1) && keep.contains(n2) && n1 != n2 implies #[trigger] node_block(
        inode,
        img,
        n1,
    ) != #[trigger] node_block(inode, img, n2) by {
        assert(node_block(inode, fs.image, n1) != node_block(inode, fs.image, n2));
    }
    assert forall|n: int|
        is_node(n) && !keep.contains(n) && (parent(n) == -1 || keep.contains(parent(n)))
            implies #[trigger] node_block(inode, img, n) == 0 by {
        if n == r {
            lemma_node_in_parent(inode, img, r);
            assert(node_block(inode, img, parent(r)) == table);
        } else {
            if live.contains(n) {
                assert(below(r, n));
                assert(false);
            }
            assert(node_block(inode, fs.image, n) == 0);
        }
    }
    assert forall|block: u32| usable(fs, block) && block != table implies #[trigger] z.block(block)
        == fs.block(block) by {
        assert forall|j: int| 0 <= j < 4096 implies #[trigger] z.block(block)[j] == fs.block(
            block,
        )[j] by {
            assert((block * 4096 + j) / 4096 == block);
            assert(img[block * 4096 + j] == fs.image[block * 4096 + j]);
        }
        assert(z.block(block) =~= fs.block(block));
    }
    assert forall|other: u32| home(fs, other) implies home(z, other) && #[trigger] z.inode(other)
        == fs.inode(other) by {
        let h = other / 32;
        assert(h != table);
        assert(z.block(h) == fs.block(h));
        assert(z.entry(h) == fs.entry(h));
        crate::tree::lemma_slot_of_block(fs.image, img, other);
    }
    assert forall|n: int| live.contains(n) && below(r, n) implies foreign(
        inode,
        z,
        slot,
        keep,
        #[trigger] node_block(inode, fs.image, n),
    ) by {
        let b = node_block(inode, fs.image, n);
        assert(owned(fs, slot, b));
        assert(z.entry(b) == fs.entry(b));
        assert forall|m: int| keep.contains(m) implies #[trigger] node_block(inode, img, m) != b by {
            assert(node_block(inode, fs.image, m) != node_block(inode, fs.image, n));
        }
    }
    assert(z.entry(slot / 32) == fs.entry(slot / 32));
}

/// A tree has shrunk by the part below a node once the node's pointer in its
/// pointer block is zero, the rest was kept, and the bitmaps say that the blocks
/// of that part are unused.
#[verifier::spinoff_prover]
#[verifier::rlimit(100)]
proof fn lemma_unlinked_off(
    inode: Inode,
    fs: FsState,
    z: FsState,
    fs2: FsState,
    slot: u32,
    live: Set<int>,
    r: int,
)
    requires
        fs.wf(),
        tree(inode, fs, slot, live),
        live.contains(r),
        parent(r) != -1,
        unlinked(inode, fs, z, slot, live, r),
        kept(inode, z, fs2, slot, without(live, r)),
        forall|n: int|
            live.contains(n) && below(r, n) ==> fs2.entry(#[trigger] node_block(inode, fs.image, n))
                == BlockArrayEntry::Unused,
    ensures
        shrank(inode, fs, slot, live, inode, fs2, without(live, r)),
{
    let keep = without(live, r);
    let table = node_block(inode, fs.image, parent(r));
    assert(live.contains(parent(r)));
    assert forall|n: int| keep.contains(n) implies #[trigger] node_block(inode, fs2.image, n)
        == node_block(inode, fs.image, n) && (n < MAX_BLOCKS ==> fs2.block(
        node_block(inode, fs.image, n),
    ) == fs.block(node_block(inode, fs.image, n))) by {
        let x = node_block(inode, fs.image, n);
        assert(node_block(inode, z.image, n) == x);
        assert(node_block(inode, fs2.image, n) == x);
        assert(owned(fs, slot, x));
        if n < MAX_BLOCKS {
            assert(n != parent(r));
            assert(x != table);
            assert(z.block(x) == fs.block(x));
            assert(fs2.block(x) == z.block(x));
        }
    }
    assert forall|other: u32| home(fs, other) implies home(fs2, other) && #[trigger] fs2.inode(
        other,
    ) == fs.inode(other) by {
        assert(z.inode(other) == fs.inode(other));
    }
    assert forall|block: u32|
        usable(fs, block) && fs.entry(block) == BlockArrayEntry::Unused implies #[trigger] fs2.entry(
        block,
    ) == BlockArrayEntry::Unused by {
        assert(z.entry(block) == fs.entry(block));
    }
}

/// The nodes `live` without the nodes from `lo` on and below `hi`.
pub open spec fn without_range(live: Set<int>, lo: int, hi: int) -> Set<int> {
    Set::new(|n: int| live.contains(n) && !(lo <= n < hi))
}

/// The nodes `live` without the nodes that the entries from `j` on of the doubly
/// indirect block lead to.
pub open spec fn without_entries(live: Set<int>, j: int) -> Set<int> {
    Set::new(|n: int| live.contains(n) && !from_entry(j, n))
}

/// What setting the pointer to a block of content in its pointer block to zero
/// and then freeing the block does to a tree: both succeed, and the tree shrinks
/// by the node of that block.
#[verifier::spinoff_prover]
#[verifier::rlimit(100)]
pub proof fn lemma_drop_leaf(inode: Inode, fs: FsState, slot: u32, live: Set<int>, r: int)
    requires
        fs.wf(),
        home(fs, slot),
        tree(inode, fs, slot, live),
        live.contains(r),
        10 <= r < MAX_BLOCKS,
    ensures
        ({
            let table = node_block(inode, fs.image, parent(r));
            let z = fs.put_u32(crate::inode::entry_addr(table, position(r)), 0);
            let f = z.0.free(node_block(inode, fs.image, r));
            &&& z.1 is Ok
            &&& f.1 is Ok
            &&& shrank(inode, fs, slot, live, inode, f.0, without(live, r))
        }),
{
    let table = node_block(inode, fs.image, parent(r));
    let z = fs.put_u32(crate::inode::entry_addr(table, position(r)), 0);
    let b = node_block(inode, fs.image, r);
    let keep = without(live, r);
    lemma_unlink(inode, fs, slot, live, r);
    assert(owned(fs, slot, b));
    assert(below(r, r));
    lemma_free_outside(inode, z.0, slot, keep, b);
    let f = z.0.free(b);
    assert forall|n: int| live.contains(n) && below(r, n) implies f.0.entry(
        #[trigger] node_block(inode, fs.image, n),
    ) == BlockArrayEntry::Unused by {
        assert(n == r);
    }
    lemma_unlinked_off(inode, fs, z.0, f.0, slot, live, r);
}

/// What cutting the entries from `e` on off a pointer block does to a tree: it
/// succeeds, and the tree shrinks by the nodes of the blocks of content that
/// those entries name.
#[verifier::spinoff_prover]
#[verifier::rlimit(100)]
pub proof fn lemma_trim_entries(
    inode: Inode,
    fs: FsState,
    slot: u32,
    live: Set<int>,
    p: int,
    base: int,
    entries: Seq<u32>,
    e: int,
)
    requires
        fs.wf(),
        home(fs, slot),
        tree(inode, fs, slot, live),
        live.contains(p),
        (p == singly_node() && base == 10) || (inner_node(1) <= p < inner_node(1024) && base == 1024
            * (p - inner_node(0)) + 10),
        entries.len() == 1024,
        0 <= e <= 1024,
        forall|e2: int|
            e <= e2 < 1024 ==> #[trigger] entries[e2] == node_block(inode, fs.image, base + e2),
    ensures
        crate::inode::trim_entries(fs, node_block(inode, fs.image, p), entries, e).1 is Ok,
        shrank(
            inode,
            fs,
            slot,
            live,
            inode,
            crate::inode::trim_entries(fs, node_block(inode, fs.image, p), entries, e).0,
            without_range(live, base + e, base + 1024),
        ),
    decreases 1024 - e,
{
    let table = node_block(inode, fs.image, p);
    let c = base + e;
    if e >= 1024 {
        lemma_shrank_not(inode, fs, slot, live);
        assert(without_range(live, base + e, base + 1024) =~= live);
    } else {
        assert(parent(c) == p && position(c) == e && is_node(c) && 10 <= c < MAX_BLOCKS);
        assert(entries[e] == node_block(inode, fs.image, c));
        if entries[e] == 0 {
            if live.contains(c) {
                assert(owned(fs, slot, node_block(inode, fs.image, c)));
            }
            lemma_trim_entries(inode, fs, slot, live, p, base, entries, e + 1);
            assert(without_range(live, base + e + 1, base + 1024) =~= without_range(
                live,
                base + e,
                base + 1024,
            ));
        } else {
            if !live.contains(c) {
                assert(node_block(inode, fs.image, c) == 0);
            }
            lemma_drop_leaf(inode, fs, slot, live, c);
            let z = fs.put_u32(crate::inode::entry_addr(table, e), 0);
            let f = z.0.free(entries[e]);
            let live1 = without(live, c);
            assert(live1.contains(p));
            assert(node_block(inode, f.0.image, p) == table);
            assert forall|e2: int| e + 1 <= e2 < 1024 implies #[trigger] entries[e2] == node_block(
                inode,
                f.0.image,
                base + e2,
            ) by {
                let n = base + e2;
                assert(parent(n) == p && is_node(n));
                if live.contains(n) {
                    assert(live1.contains(n));
                    assert(node_block(inode, f.0.image, n) == node_block(inode, fs.image, n));
                } else {
                    assert(node_block(inode, fs.image, n) == 0);
                    assert(node_block(inode, f.0.image, n) == 0);
                }
            }
            lemma_trim_entries(inode, f.0, slot, live1, p, base, entries, e + 1);
            let r = crate::inode::trim_entries(f.0, table, entries, e + 1);
            lemma_shrank_twice(
                inode,
                fs,
                slot,
                live,
                inode,
                f.0,
                live1,
                inode,
                r.0,
                without_range(live1, base + e + 1, base + 1024),
            );
            assert(without_range(live1, base + e + 1, base + 1024) =~= without_range(
                live,
                base + e,
                base + 1024,
            ));
        }
    }
}

/// What setting an entry of the doubly indirect block to zero and then freeing
/// the singly indirect block that it named, after the blocks that that one
/// names, does to a tree: all succeed, and the tree shrinks by the nodes of those
/// blocks.
#[verifier::spinoff_prover]
#[verifier::rlimit(100)]
pub proof fn lemma_drop_inner_one(inode: Inode, fs: FsState, slot: u32, live: Set<int>, j: int)
    requires
        fs.wf(),
        home(fs, slot),
        tree(inode, fs, slot, live),
        1 <= j < 1024,
        live.contains(inner_node(j)),
    ensures
        ({
            let doubly = node_block(inode, fs.image, doubly_node());
            let table = node_block(inode, fs.image, inner_node(j));
            let z = fs.put_u32(crate::inode::entry_addr(doubly, j), 0);
            let released = release_table(z.0, table, false);
            let f = released.0.free(table);
            &&& z.1 is Ok
            &&& released.1 is Ok
            &&& f.1 is Ok
            &&& shrank(inode, fs, slot, live, inode, f.0, without(live, inner_node(j)))
        }),
{
    let r = inner_node(j);
    assert(parent(r) == doubly_node() && position(r) == j);
    let doubly = node_block(inode, fs.image, doubly_node());
    let table = node_block(inode, fs.image, r);
    let z = fs.put_u32(crate::inode::entry_addr(doubly, j), 0);
    let keep = without(live, r);
    lemma_unlink(inode, fs, slot, live, r);
    assert(live.contains(doubly_node()));
    assert(owned(fs, slot, table));
    assert(owned(fs, slot, doubly));
    assert(table != doubly);
    assert(z.0.block(table) == fs.block(table));
    lemma_same_table(z.0.image, fs.image, table);
    let entries = table_entries(z.0.image, table);
    assert forall|e: int| 0 <= e < entries.len() implies foreign(
        inode,
        z.0,
        slot,
        keep,
        #[trigger] entries[e],
    ) by {
        let c = 1024 * j + 10 + e;
        lemma_node_in_parent(inode, fs.image, c);
        assert(entries[e] == node_block(inode, fs.image, c));
        if live.contains(c) {
            assert(below(r, c));
        } else {
            assert(node_block(inode, fs.image, c) == 0);
        }
    }
    lemma_release_flat(inode, z.0, slot, keep, entries, 0);
    let released = release_entries(z.0, entries, 0, false);
    assert(release_table(z.0, table, false) == released);
    assert(below(r, r));
    lemma_foreign_still(inode, z.0, released.0, slot, keep, table);
    lemma_free_outside(inode, released.0, slot, keep, table);
    let f = released.0.free(table);
    lemma_kept_twice(inode, z.0, released.0, f.0, slot, keep);
    assert forall|n: int| live.contains(n) && below(r, n) implies f.0.entry(
        #[trigger] node_block(inode, fs.image, n),
    ) == BlockArrayEntry::Unused by {
        if n != r {
            assert(parent(n) == r);
            let e = n - (1024 * j + 10);
            lemma_node_in_parent(inode, fs.image, n);
            assert(entries[e] == node_block(inode, fs.image, n));
            assert(owned(fs, slot, entries[e]));
            assert(released.0.entry(entries[e]) == BlockArrayEntry::Unused);
            assert(usable(released.0, entries[e]));
        }
    }
    lemma_unlinked_off(inode, fs, z.0, f.0, slot, live, r);
}

/// What cutting the entries from `j` on off the doubly indirect block does to a
/// tree: it succeeds, and the tree shrinks by the nodes that those entries lead
/// to.
#[verifier::spinoff_prover]
#[verifier::rlimit(100)]
pub proof fn lemma_drop_inner(
    inode: Inode,
    fs: FsState,
    slot: u32,
    live: Set<int>,
    entries: Seq<u32>,
    j: int,
)
    requires
        fs.wf(),
        home(fs, slot),
        tree(inode, fs, slot, live),
        live.contains(doubly_node()),
        !live.contains(inner_node(0)),
        entries.len() == 1024,
        0 <= j <= 1024,
        forall|j2: int|
            j <= j2 < 1024 ==> #[trigger] entries[j2] == node_block(
                inode,
                fs.image,
                inner_node(j2),
            ),
    ensures
        crate::inode::drop_inner(
            fs,
            node_block(inode, fs.image, doubly_node()),
            entries,
            j,
        ).1 is Ok,
        shrank(
            inode,
            fs,
            slot,
            live,
            inode,
            crate::inode::drop_inner(fs, node_block(inode, fs.image, doubly_node()), entries, j).0,
            without_entries(live, j),
        ),
    decreases 1024 - j,
{
    let doubly = node_block(inode, fs.image, doubly_node());
    if j >= 1024 {
        lemma_shrank_not(inode, fs, slot, live);
        assert(without_entries(live, j) =~= live) by {
            assert forall|n: int| live.contains(n) implies !from_entry(j, n) by {
                assert(is_node(n));
            }
        }
    } else {
        let r = inner_node(j);
        assert(entries[j] == node_block(inode, fs.image, r));
        if entries[j] == 0 {
            if live.contains(r) {
                assert(owned(fs, slot, node_block(inode, fs.image, r)));
            }
            lemma_drop_inner(inode, fs, slot, live, entries, j + 1);
            assert(without_entries(live, j + 1) =~= without_entries(live, j)) by {
                assert forall|n: int| live.contains(n) && from_entry(j, n) implies from_entry(
                    j + 1,
                    n,
                ) by {
                    if n != r && !from_entry(j + 1, n) {
                        assert(parent(n) == r);
                        assert(live.contains(parent(n)));
                    }
                }
            }
        } else {
            if !live.contains(r) {
                assert(node_block(inode, fs.image, r) == 0);
            }
            assert(j >= 1);
            lemma_drop_inner_one(inode, fs, slot, live, j);
            let z = fs.put_u32(crate::inode::entry_addr(doubly, j), 0);
            let released = release_table(z.0, entries[j], false);
            let f = released.0.free(entries[j]);
            let live1 = without(live, r);
            assert(live1.contains(doubly_node()));
            assert(node_block(inode, f.0.image, doubly_node()) == doubly);
            assert forall|j2: int| j + 1 <= j2 < 1024 implies #[trigger] entries[j2] == node_block(
                inode,
                f.0.image,
                inner_node(j2),
            ) by {
                let n = inner_node(j2);
                assert(parent(n) == doubly_node() && is_node(n));
                if live.contains(n) {
                    assert(live1.contains(n));
                    assert(node_block(inode, f.0.image, n) == node_block(inode, fs.image, n));
                } else {
                    assert(node_block(inode, fs.image, n) == 0);
                    assert(node_block(inode, f.0.image, n) == 0);
                }
            }
            lemma_drop_inner(inode, f.0, slot, live1, entries, j + 1);
            let d = crate::inode::drop_inner(f.0, doubly, entries, j + 1);
            lemma_shrank_twice(
                inode,
                fs,
                slot,
                live,
                inode,
                f.0,
                live1,
                inode,
                d.0,
                without_entries(live1, j + 1),
            );
            assert(without_entries(live1, j + 1) =~= without_entries(live, j));
        }
    }
}

/// Whether node `n` lies beyond the nodes of a tree with `to` blocks of content,
/// among the nodes that the doubly indirect block leads to.
pub open spec fn beyond(to: int, n: int) -> bool {
    (to <= n < MAX_BLOCKS) || (inner_node(0) <= n < inner_node(1024) && 1024 * (n - inner_node(0))
        + 10 >= to)
}

/// The nodes `live` without those beyond the nodes of a tree with `to` blocks
/// of content.
pub open spec fn without_beyond(live: Set<int>, to: int) -> Set<int> {
    Set::new(|n: int| live.contains(n) && !beyond(to, n))
}

/// What cutting the doubly indirect block down to what an inode with `to` blocks
/// of content needs does to a tree: it succeeds, and the tree shrinks by the
/// nodes beyond.
#[verifier::spinoff_prover]
#[verifier::rlimit(100)]
pub proof fn lemma_trim_doubly(inode: Inode, fs: FsState, slot: u32, live: Set<int>, to: int)
    requires
        fs.wf(),
        home(fs, slot),
        tree(inode, fs, slot, live),
        live.contains(doubly_node()),
        !live.contains(inner_node(0)),
        1034 < to < MAX_BLOCKS,
    ensures
        crate::inode::trim_doubly(fs, inode.doubly_indirect_block_pointer, to).1 is Ok,
        shrank(
            inode,
            fs,
            slot,
            live,
            inode,
            crate::inode::trim_doubly(fs, inode.doubly_indirect_block_pointer, to).0,
            without_beyond(live, to),
        ),
{
    let top = doubly_node();
    let doubly = inode.doubly_indirect_block_pointer;
    assert(node_block(inode, fs.image, top) == doubly);
    assert(owned(fs, slot, doubly));
    let entries = table_entries(fs.image, doubly);
    let j = (to - 10) / 1024;
    let e = (to - 10) % 1024;
    assert(1 <= j < 1024);
    assert forall|j2: int| 0 <= j2 < 1024 implies #[trigger] entries[j2] == node_block(
        inode,
        fs.image,
        inner_node(j2),
    ) by {
        lemma_node_in_parent(inode, fs.image, inner_node(j2));
    }
    let node = inner_node(j);
    let base = 1024 * j + 10;
    let live1 = if e != 0 {
        without_range(live, to, base + 1024)
    } else {
        live
    };
    let part = if e != 0 && entries[j] != 0 {
        crate::inode::trim_table(fs, entries[j], e)
    } else {
        (fs, Ok(()))
    };
    if e != 0 && entries[j] != 0 {
        if !live.contains(node) {
            assert(node_block(inode, fs.image, node) == 0);
        }
        let table = entries[j];
        assert(owned(fs, slot, table));
        let below_table = table_entries(fs.image, table);
        assert forall|e2: int| e <= e2 < 1024 implies #[trigger] below_table[e2] == node_block(
            inode,
            fs.image,
            base + e2,
        ) by {
            lemma_node_in_parent(inode, fs.image, base + e2);
        }
        lemma_trim_entries(inode, fs, slot, live, node, base, below_table, e);
    } else {
        lemma_shrank_not(inode, fs, slot, live);
        if e != 0 {
            assert(live1 =~= live) by {
                assert forall|n: int| live.contains(n) implies !(to <= n < base + 1024) by {
                    if to <= n < base + 1024 {
                        assert(parent(n) == node);
                        assert(live.contains(node));
                        assert(owned(fs, slot, node_block(inode, fs.image, node)));
                    }
                }
            }
        }
    }
    assert(shrank(inode, fs, slot, live, inode, part.0, live1));
    let first = if e == 0 {
        j
    } else {
        j + 1
    };
    assert(live1.contains(top));
    assert(node_block(inode, part.0.image, top) == doubly);
    assert forall|j2: int| first <= j2 < 1024 implies #[trigger] entries[j2] == node_block(
        inode,
        part.0.image,
        inner_node(j2),
    ) by {
        let n = inner_node(j2);
        assert(parent(n) == top && is_node(n));
        if live.contains(n) {
            assert(live1.contains(n));
            assert(node_block(inode, part.0.image, n) == node_block(inode, fs.image, n));
        } else {
            assert(node_block(inode, fs.image, n) == 0);
            assert(node_block(inode, part.0.image, n) == 0);
        }
    }
    lemma_drop_inner(inode, part.0, slot, live1, entries, first);
    let d = crate::inode::drop_inner(part.0, doubly, entries, first);
    lemma_shrank_twice(
        inode,
        fs,
        slot,
        live,
        inode,
        part.0,
        live1,
        inode,
        d.0,
        without_entries(live1, first),
    );
    assert(without_entries(live1, first) =~= without_beyond(live, to)) by {
        assert forall|n: int| live.contains(n) implies ((e != 0 && to <= n < base + 1024)
            || from_entry(first, n)) == beyond(to, n) by {
            assert(is_node(n));
        }
    }
}

} // verus!
