//! What holds of the content of a file on a well-formed filesystem: what was
//! written is what is read.

use crate::allocation::same_identity;
use crate::codec::{span, splice, zeros};
use crate::disk::transfer_len;
use crate::fs::{FsError, FsState};
use crate::inode::{trimmed, Inode, InodeType, MAX_BLOCKS};
use crate::pruning::{
    lemma_drop_direct, lemma_drop_doubly, lemma_drop_singly, lemma_shrank_twice,
    lemma_trim_doubly, lemma_trim_entries, shrank, without, without_beyond, without_direct,
    without_range,
};
use crate::tree::{
    doubly_node, grew, home, lemma_extend, lemma_grew_not, lemma_grew_twice, lemma_put_inode,
    lemma_resolve, lemma_tree_kept, lemma_write_content, node_block, nodes_for, owned,
    pointers_kept, singly_node, tree,
};
use vstd::prelude::*;

verus! {

/// Giving an inode the blocks that it lacks below `to` makes its tree grow to
/// one with `to` blocks of content, or leaves it where it has as many.
#[verifier::rlimit(100)]
pub proof fn lemma_grow(inode: Inode, fs: FsState, slot: u32, k: int, i: u32, to: u32)
    requires
        fs.wf(),
        home(fs, slot),
        tree(inode, fs, slot, nodes_for(k)),
        0 <= i <= k <= MAX_BLOCKS,
        inode.grow(fs, slot, i, to).2 is Ok,
    ensures
        grew(
            inode,
            fs,
            slot,
            nodes_for(k),
            inode.grow(fs, slot, i, to).1,
            inode.grow(fs, slot, i, to).0,
            nodes_for(
                if k <= to {
                    to as int
                } else {
                    k
                },
            ),
        ),
        k <= to ==> to <= MAX_BLOCKS,
    decreases to - i,
{
    if i >= to {
        lemma_grew_not(inode, fs, slot, nodes_for(k));
    } else {
        lemma_resolve(inode, fs, slot, nodes_for(k), i);
        if inode.resolve(fs.image, i) is Some {
            lemma_grow(inode, fs, slot, k, (i + 1) as u32, to);
        } else {
            assert(i == k);
            let e = inode.extend(fs, slot);
            lemma_extend(inode, fs, slot, k);
            lemma_grow(e.1, e.0, slot, k + 1, (i + 1) as u32, to);
            let g = e.1.grow(e.0, slot, (i + 1) as u32, to);
            lemma_grew_twice(
                inode,
                fs,
                slot,
                nodes_for(k),
                e.1,
                e.0,
                nodes_for(k + 1),
                g.1,
                g.0,
                nodes_for(to as int),
            );
        }
    }
}

/// Storing the inode of a tree in its slot leaves the tree as it is.
#[verifier::rlimit(100)]
pub proof fn lemma_stored(inode: Inode, fs: FsState, slot: u32, live: Set<int>)
    requires
        fs.wf(),
        home(fs, slot),
        tree(inode, fs, slot, live),
    ensures
        grew(inode, fs, slot, live, inode, fs.put_inode(slot, inode).0, live),
        fs.put_inode(slot, inode).1 is Ok,
        fs.put_inode(slot, inode).0.inode(slot) == Ok::<Inode, FsError>(inode),
{
    let after = fs.put_inode(slot, inode).0;
    lemma_put_inode(fs, slot, inode);
    let house = slot / 32;
    assert((slot * 128) / 4096 == house && (slot * 128 + 127) / 4096 == house);
    assert forall|n: int| live.contains(n) implies after.block(
        #[trigger] node_block(inode, fs.image, n),
    ) == fs.block(node_block(inode, fs.image, n)) by {
        let b = node_block(inode, fs.image, n);
        assert(owned(fs, slot, b));
        assert forall|j: int| 0 <= j < 4096 implies #[trigger] after.block(b)[j] == fs.block(b)[j] by {
            assert((b * 4096 + j) / 4096 == b);
            assert(after.image[b * 4096 + j] == fs.image[b * 4096 + j]);
        }
        assert(after.block(b) =~= fs.block(b));
    }
    assert forall|n: int| live.contains(n) implies after.entry(
        #[trigger] node_block(inode, fs.image, n),
    ) == crate::fs::BlockArrayEntry::Allocated by {
        assert(owned(fs, slot, node_block(inode, fs.image, n)));
    }
    assert(pointers_kept(inode, fs, after, live));
    lemma_tree_kept(inode, fs, after, slot, live);
    assert(after.entry(house) == fs.entry(house));
    assert forall|other: u32| home(fs, other) && other != slot implies home(after, other)
        && #[trigger] after.inode(other) == fs.inode(other) by {
        crate::tree::lemma_put_inode_keeps_allocated(fs, slot, inode, other);
        assert(after.entry(other / 32) == fs.entry(other / 32));
    }
}

/// What giving back all that a tree holds beyond `to` blocks of content does: it
/// succeeds, and the tree shrinks to one with `to` blocks.
#[verifier::spinoff_prover]
#[verifier::rlimit(100)]
pub proof fn lemma_cut_down(inode: Inode, fs: FsState, slot: u32, k: int, to: u32)
    requires
        fs.wf(),
        home(fs, slot),
        tree(inode, fs, slot, nodes_for(k)),
        to <= k <= MAX_BLOCKS,
    ensures
        ({
            let d = inode.drop_direct(fs, to);
            let s = d.1.cut_singly(d.0, to);
            let t = s.1.cut_doubly(s.0, to);
            &&& d.2 is Ok
            &&& s.2 is Ok
            &&& t.2 is Ok
            &&& shrank(inode, fs, slot, nodes_for(k), t.1, t.0, nodes_for(to as int))
        }),
{
    let live = nodes_for(k);
    let d = inode.drop_direct(fs, to);
    lemma_drop_direct(inode, fs, slot, live, to);
    let l1 = without_direct(live, to as int);
    let s = d.1.cut_singly(d.0, to);
    let single = d.1.singly_indirect_block_pointer;
    assert(node_block(d.1, d.0.image, singly_node()) == single);
    let l2 = if to <= 10 {
        without(l1, singly_node())
    } else if to < 1034 {
        without_range(l1, to as int, 1034)
    } else {
        l1
    };
    if to <= 10 {
        lemma_drop_singly(d.1, d.0, slot, l1);
    } else if to < 1034 {
        assert(l1.contains(singly_node()));
        assert(owned(d.0, slot, single));
        let entries = crate::inode::table_entries(d.0.image, single);
        assert forall|e2: int| to - 10 <= e2 < 1024 implies #[trigger] entries[e2] == node_block(
            d.1,
            d.0.image,
            10 + e2,
        ) by {
            crate::tree::lemma_node_in_parent(d.1, d.0.image, 10 + e2);
        }
        lemma_trim_entries(d.1, d.0, slot, l1, singly_node(), 10, entries, to - 10);
    } else {
        crate::pruning::lemma_shrank_not(d.1, d.0, slot, l1);
    }
    assert(shrank(d.1, d.0, slot, l1, s.1, s.0, l2));
    lemma_shrank_twice(inode, fs, slot, live, d.1, d.0, l1, s.1, s.0, l2);
    let t = s.1.cut_doubly(s.0, to);
    let double = s.1.doubly_indirect_block_pointer;
    assert(node_block(s.1, s.0.image, doubly_node()) == double);
    let l3 = if to <= 1034 {
        without(l2, doubly_node())
    } else if to < MAX_BLOCKS {
        without_beyond(l2, to as int)
    } else {
        l2
    };
    if to <= 1034 {
        lemma_drop_doubly(s.1, s.0, slot, l2);
    } else if to < MAX_BLOCKS {
        assert(l2.contains(doubly_node()));
        assert(owned(s.0, slot, double));
        lemma_trim_doubly(s.1, s.0, slot, l2, to as int);
    } else {
        crate::pruning::lemma_shrank_not(s.1, s.0, slot, l2);
    }
    assert(shrank(s.1, s.0, slot, l2, t.1, t.0, l3));
    lemma_shrank_twice(inode, fs, slot, live, s.1, s.0, l2, t.1, t.0, l3);
    assert(l3 =~= nodes_for(to as int));
}

/// Whether the tree of an inode with `k` blocks of content has been resized to one
/// with `to` blocks: it is a tree in a well-formed filesystem; the blocks of
/// content that it had before and has still hold what they held; and the bitmaps
/// say that the blocks that it has no more are unused.
pub open spec fn resized(
    inode: Inode,
    fs: FsState,
    slot: u32,
    k: int,
    inode2: Inode,
    fs2: FsState,
    to: int,
) -> bool {
    &&& fs2.wf()
    &&& home(fs2, slot)
    &&& tree(inode2, fs2, slot, nodes_for(to))
    &&& inode2.type_and_permission == inode.type_and_permission
    &&& inode2.meta == inode.meta
    &&& inode2.hardlinks == inode.hardlinks
    &&& fs2.superblock.total_blocks == fs.superblock.total_blocks
    &&& forall|i: int|
        0 <= i < k && i < to ==> #[trigger] node_block(inode2, fs2.image, i) == node_block(
            inode,
            fs.image,
            i,
        ) && fs2.block(node_block(inode, fs.image, i)) == fs.block(node_block(inode, fs.image, i))
    &&& forall|n: int|
        nodes_for(k).contains(n) && !nodes_for(to).contains(n) ==> fs2.entry(
            #[trigger] node_block(inode, fs.image, n),
        ) == crate::fs::BlockArrayEntry::Unused
}

/// What makes a tree resized, put together.
#[verifier::rlimit(100)]
proof fn lemma_is_resized(
    inode: Inode,
    fs: FsState,
    slot: u32,
    k: int,
    inode2: Inode,
    fs2: FsState,
    to: int,
)
    requires
        fs2.wf(),
        home(fs2, slot),
        tree(inode2, fs2, slot, nodes_for(to)),
        inode2.type_and_permission == inode.type_and_permission,
        inode2.meta == inode.meta,
        inode2.hardlinks == inode.hardlinks,
        fs2.superblock.total_blocks == fs.superblock.total_blocks,
        forall|i: int|
            0 <= i < k && i < to ==> #[trigger] node_block(inode2, fs2.image, i) == node_block(
                inode,
                fs.image,
                i,
            ) && fs2.block(node_block(inode, fs.image, i)) == fs.block(
                node_block(inode, fs.image, i),
            ),
        forall|n: int|
            nodes_for(k).contains(n) && !nodes_for(to).contains(n) ==> fs2.entry(
                #[trigger] node_block(inode, fs.image, n),
            ) == crate::fs::BlockArrayEntry::Unused,
    ensures
        resized(inode, fs, slot, k, inode2, fs2, to),
{
}

/// Whether a tree has grown from `k` to `kk` blocks of content and then shrunk to
/// `to`.
#[verifier::opaque]
pub open spec fn grown_and_cut(
    inode: Inode,
    fs: FsState,
    slot: u32,
    k: int,
    kk: int,
    inode2: Inode,
    fs2: FsState,
    inode3: Inode,
    fs3: FsState,
    to: int,
) -> bool {
    &&& grew(inode, fs, slot, nodes_for(k), inode2, fs2, nodes_for(kk))
    &&& shrank(inode2, fs2, slot, nodes_for(kk), inode3, fs3, nodes_for(to))
}

/// What a tree that has grown and then shrunk holds at one node.
#[verifier::spinoff_prover]
#[verifier::rlimit(100)]
proof fn lemma_grown_and_cut_at(
    inode: Inode,
    fs: FsState,
    slot: u32,
    k: int,
    kk: int,
    inode2: Inode,
    fs2: FsState,
    inode3: Inode,
    fs3: FsState,
    to: int,
    n: int,
)
    requires
        tree(inode, fs, slot, nodes_for(k)),
        0 <= k <= kk <= MAX_BLOCKS,
        0 <= to <= kk,
        k < kk ==> to == kk,
        grown_and_cut(inode, fs, slot, k, kk, inode2, fs2, inode3, fs3, to),
    ensures
        fs3.wf(),
        home(fs3, slot),
        tree(inode3, fs3, slot, nodes_for(to)),
        inode3.type_and_permission == inode.type_and_permission,
        inode3.meta == inode.meta,
        inode3.hardlinks == inode.hardlinks,
        fs3.superblock.total_blocks == fs.superblock.total_blocks,
        0 <= n < k && n < to ==> node_block(inode3, fs3.image, n) == node_block(inode, fs.image, n)
            && fs3.block(node_block(inode, fs.image, n)) == fs.block(
            node_block(inode, fs.image, n),
        ),
        nodes_for(k).contains(n) && !nodes_for(to).contains(n) ==> fs3.entry(
            node_block(inode, fs.image, n),
        ) == crate::fs::BlockArrayEntry::Unused,
{
    reveal(grown_and_cut);
    let x = node_block(inode, fs.image, n);
    if 0 <= n < k && n < to {
        assert(nodes_for(k).contains(n) && nodes_for(to).contains(n));
        assert(node_block(inode2, fs2.image, n) == x);
        assert(fs2.block(node_block(inode2, fs2.image, n)) == fs.block(x));
        assert(node_block(inode3, fs3.image, n) == node_block(inode2, fs2.image, n));
        assert(fs3.block(x) == fs2.block(x));
    }
    if nodes_for(k).contains(n) && !nodes_for(to).contains(n) {
        assert(nodes_for(kk).contains(n));
        assert(node_block(inode2, fs2.image, n) == x);
        assert(fs3.entry(node_block(inode2, fs2.image, n)) == crate::fs::BlockArrayEntry::Unused);
    }
}

/// A tree that has grown and then shrunk has been resized.
#[verifier::rlimit(100)]
proof fn lemma_grown_and_cut(
    inode: Inode,
    fs: FsState,
    slot: u32,
    k: int,
    kk: int,
    inode2: Inode,
    fs2: FsState,
    inode3: Inode,
    fs3: FsState,
    to: int,
)
    requires
        tree(inode, fs, slot, nodes_for(k)),
        0 <= k <= kk <= MAX_BLOCKS,
        0 <= to <= kk,
        k < kk ==> to == kk,
        grown_and_cut(inode, fs, slot, k, kk, inode2, fs2, inode3, fs3, to),
    ensures
        resized(inode, fs, slot, k, inode3, fs3, to),
{
    lemma_grown_and_cut_at(inode, fs, slot, k, kk, inode2, fs2, inode3, fs3, to, 0);
    assert forall|i: int| 0 <= i < k && i < to implies #[trigger] node_block(inode3, fs3.image, i)
        == node_block(inode, fs.image, i) && fs3.block(node_block(inode, fs.image, i)) == fs.block(
        node_block(inode, fs.image, i),
    ) by {
        lemma_grown_and_cut_at(inode, fs, slot, k, kk, inode2, fs2, inode3, fs3, to, i);
    }
    assert forall|n: int| nodes_for(k).contains(n) && !nodes_for(to).contains(n) implies fs3.entry(
        #[trigger] node_block(inode, fs.image, n),
    ) == crate::fs::BlockArrayEntry::Unused by {
        lemma_grown_and_cut_at(inode, fs, slot, k, kk, inode2, fs2, inode3, fs3, to, n);
    }
    lemma_is_resized(inode, fs, slot, k, inode3, fs3, to);
}

/// A tree that has been resized is so still after its inode was stored.
#[verifier::spinoff_prover]
#[verifier::rlimit(100)]
proof fn lemma_resized_stored(
    inode: Inode,
    fs: FsState,
    slot: u32,
    k: int,
    inode2: Inode,
    fs2: FsState,
    to: int,
)
    requires
        tree(inode, fs, slot, nodes_for(k)),
        fs.wf(),
        0 <= to <= MAX_BLOCKS,
        resized(inode, fs, slot, k, inode2, fs2, to),
    ensures
        resized(inode, fs, slot, k, inode2, fs2.put_inode(slot, inode2).0, to),
        fs2.put_inode(slot, inode2).1 is Ok,
        fs2.put_inode(slot, inode2).0.inode(slot) == Ok::<Inode, FsError>(inode2),
{
    let w = fs2.put_inode(slot, inode2);
    lemma_stored(inode2, fs2, slot, nodes_for(to));
    lemma_put_inode(fs2, slot, inode2);
    assert forall|i: int| 0 <= i < k && i < to implies #[trigger] node_block(inode2, w.0.image, i)
        == node_block(inode, fs.image, i) && w.0.block(node_block(inode, fs.image, i)) == fs.block(
        node_block(inode, fs.image, i),
    ) by {
        let x = node_block(inode, fs.image, i);
        assert(nodes_for(to).contains(i));
        assert(node_block(inode2, fs2.image, i) == x);
        assert(node_block(inode2, w.0.image, i) == x);
        assert(w.0.block(node_block(inode2, w.0.image, i)) == fs2.block(
            node_block(inode2, fs2.image, i),
        ));
    }
    assert forall|n: int| nodes_for(k).contains(n) && !nodes_for(to).contains(n) implies w.0.entry(
        #[trigger] node_block(inode, fs.image, n),
    ) == crate::fs::BlockArrayEntry::Unused by {
        let x = node_block(inode, fs.image, n);
        assert(owned(fs, slot, x));
        assert(fs2.entry(x) == crate::fs::BlockArrayEntry::Unused);
        assert(w.0.entry(x) == fs2.entry(x));
    }
    assert(w.0.wf() && home(w.0, slot) && tree(inode2, w.0, slot, nodes_for(to)));
    assert(w.0.superblock.total_blocks == fs.superblock.total_blocks);
    lemma_is_resized(inode, fs, slot, k, inode2, w.0, to);
}

/// What `resize_self` does to a tree with `k` blocks of content, where it
/// succeeds: the tree then has exactly `to` blocks of content, and has been
/// resized to them; and the inode is stored.
#[verifier::spinoff_prover]
#[verifier::rlimit(100)]
pub proof fn lemma_resize_any(inode: Inode, fs: FsState, slot: u32, k: int, to: u32)
    requires
        fs.wf(),
        home(fs, slot),
        tree(inode, fs, slot, nodes_for(k)),
        0 <= k <= MAX_BLOCKS,
        inode.resize(fs, slot, to).2 is Ok,
    ensures
        to <= MAX_BLOCKS,
        resized(
            inode,
            fs,
            slot,
            k,
            inode.resize(fs, slot, to).1,
            inode.resize(fs, slot, to).0,
            to as int,
        ),
        inode.resize(fs, slot, to).0.inode(slot) == Ok::<Inode, FsError>(
            inode.resize(fs, slot, to).1,
        ),
{
    reveal(Inode::resize);
    let g = inode.grow(fs, slot, 0, to);
    lemma_grow(inode, fs, slot, k, 0, to);
    let kk = if k <= to {
        to as int
    } else {
        k
    };
    lemma_cut_down(g.1, g.0, slot, kk, to);
    let d = g.1.drop_direct(g.0, to);
    let s = d.1.cut_singly(d.0, to);
    let t = s.1.cut_doubly(s.0, to);
    assert(grown_and_cut(inode, fs, slot, k, kk, g.1, g.0, t.1, t.0, to as int)) by {
        reveal(grown_and_cut);
    }
    lemma_grown_and_cut(inode, fs, slot, k, kk, g.1, g.0, t.1, t.0, to as int);
    lemma_resized_stored(inode, fs, slot, k, t.1, t.0, to as int);
    let w = t.0.put_inode(slot, t.1);
    assert(inode.resize(fs, slot, to) == (w.0, t.1, w.1));
}

/// Part `i` of `data`, as it is written to the block of content with index `i`.
pub open spec fn part_of(data: Seq<u8>, i: int) -> Seq<u8> {
    data.subrange(
        i * 4096,
        if (i + 1) * 4096 <= data.len() {
            (i + 1) * 4096
        } else {
            data.len() as int
        },
    )
}

/// What the blocks of content with the indices from `i` on and below `n` hold,
/// one after the other.
pub open spec fn gathered(inode: Inode, fs: FsState, i: int, n: int) -> Seq<u8>
    decreases n - i,
{
    if i >= n {
        Seq::empty()
    } else {
        fs.block(node_block(inode, fs.image, i)) + gathered(inode, fs, i + 1, n)
    }
}

/// What writing the parts of `data` from part `i` on does in a tree with a block
/// of content for each part: it succeeds; the tree stays as it is; each of those
/// blocks holds its part at its start; and every other block of the tree, the
/// inode's slot and the superblock hold what they held.
#[verifier::spinoff_prover]
#[verifier::rlimit(100)]
pub proof fn lemma_store_parts(inode: Inode, fs: FsState, slot: u32, data: Seq<u8>, i: u32, n: u32)
    requires
        fs.wf(),
        home(fs, slot),
        tree(inode, fs, slot, nodes_for(n as int)),
        n == Inode::blocks_for(data.len()),
        i <= n <= MAX_BLOCKS,
    ensures
        ({
            let r = inode.store_parts(fs, data, i, n);
            &&& r.1 is Ok
            &&& r.0.wf()
            &&& home(r.0, slot)
            &&& tree(inode, r.0, slot, nodes_for(n as int))
            &&& r.0.inode(slot) == fs.inode(slot)
            &&& r.0.superblock == fs.superblock
            &&& forall|j: int|
                nodes_for(n as int).contains(j) ==> #[trigger] node_block(inode, r.0.image, j)
                    == node_block(inode, fs.image, j)
            &&& forall|j: int|
                0 <= j < n ==> r.0.block(#[trigger] node_block(inode, r.0.image, j)) == if j < i {
                    fs.block(node_block(inode, fs.image, j))
                } else {
                    splice(fs.block(node_block(inode, fs.image, j)), 0, part_of(data, j))
                }
        }),
    decreases n - i,
{
    let live = nodes_for(n as int);
    if i < n {
        lemma_resolve(inode, fs, slot, live, i);
        let block = node_block(inode, fs.image, i as int);
        let part = part_of(data, i as int);
        assert(part.len() <= 4096);
        lemma_write_content(inode, fs, slot, live, i as int, 0, part);
        let written = FsState {
            image: splice(fs.image, block * 4096, part),
            superblock: fs.superblock,
        };
        lemma_store_parts(inode, written, slot, data, (i + 1) as u32, n);
        let r = inode.store_parts(fs, data, i, n);
        assert(r == inode.store_parts(written, data, (i + 1) as u32, n));
        assert forall|j: int| 0 <= j < n implies r.0.block(
            #[trigger] node_block(inode, r.0.image, j),
        ) == if j < i {
            fs.block(node_block(inode, fs.image, j))
        } else {
            splice(fs.block(node_block(inode, fs.image, j)), 0, part_of(data, j))
        } by {
            assert(live.contains(j));
            assert(node_block(inode, written.image, j) == node_block(inode, fs.image, j));
            if j != i {
                assert(written.block(node_block(inode, written.image, j)) == fs.block(
                    node_block(inode, fs.image, j),
                ));
            }
        }
    } else {
        assert forall|j: int| 0 <= j < n implies live.contains(j) by {}
    }
}

/// What a read of 4096 bytes at the start of the block of content with index `i`
/// delivers in a tree: what the block holds, where the tree has it, and nothing
/// where it has not.
#[verifier::rlimit(100)]
pub proof fn lemma_content_of_block(inode: Inode, fs: FsState, slot: u32, live: Set<int>, i: u32)
    requires
        fs.wf(),
        tree(inode, fs, slot, live),
        i < MAX_BLOCKS,
    ensures
        inode.content(fs.image, (i * 4096) as u64, 4096) == if live.contains(i as int) {
            fs.block(node_block(inode, fs.image, i as int))
        } else {
            Seq::<u8>::empty()
        },
{
    let img = fs.image;
    let off = (i * 4096) as u64;
    lemma_resolve(inode, fs, slot, live, i);
    assert(off % 4096 == 0 && off / 4096 == i);
    if live.contains(i as int) {
        let block = node_block(inode, img, i as int);
        assert(owned(fs, slot, block));
        assert(transfer_len(img.len(), (block * 4096) as u64, 4096) == 4096);
        let got = span(img, block * 4096 + off % 4096, 4096);
        assert(inode.part(img, off, 4096) == Ok::<Seq<u8>, FsError>(got));
        assert(inode.content(img, (off + 4096) as u64, 0) =~= Seq::<u8>::empty());
        assert(got + Seq::<u8>::empty() =~= got);
        assert(got =~= fs.block(block));
    }
}

/// In a tree with `n` blocks of content, all the content that can be read from
/// the block with index `i` on is what the blocks from there on hold.
#[verifier::rlimit(100)]
pub proof fn lemma_whole(inode: Inode, fs: FsState, slot: u32, n: int, i: u32)
    requires
        fs.wf(),
        tree(inode, fs, slot, nodes_for(n)),
        0 <= i <= n <= MAX_BLOCKS,
    ensures
        inode.whole(fs.image, i) == gathered(inode, fs, i as int, n),
        gathered(inode, fs, i as int, n).len() == (n - i) * 4096,
    decreases n - i,
{
    if i < MAX_BLOCKS {
        lemma_content_of_block(inode, fs, slot, nodes_for(n), i);
    }
    if i < n {
        lemma_whole(inode, fs, slot, n, (i + 1) as u32);
    }
}

/// Blocks that each hold their part of `data` at their start hold, one after the
/// other, `data` at their start.
#[verifier::rlimit(100)]
proof fn lemma_gathered_parts(inode: Inode, fs: FsState, data: Seq<u8>, i: int, n: int)
    requires
        n == Inode::blocks_for(data.len()),
        0 <= i <= n,
        forall|j: int|
            i <= j < n ==> (#[trigger] fs.block(node_block(inode, fs.image, j))).take(
                part_of(data, j).len() as int,
            ) == part_of(data, j),
    ensures
        gathered(inode, fs, i, n).len() == (n - i) * 4096,
        i < n ==> gathered(inode, fs, i, n).take(data.len() - i * 4096) == data.skip(i * 4096),
    decreases n - i,
{
    if i < n {
        lemma_gathered_parts(inode, fs, data, i + 1, n);
        let first = fs.block(node_block(inode, fs.image, i));
        let rest = gathered(inode, fs, i + 1, n);
        let all = gathered(inode, fs, i, n);
        let want = data.skip(i * 4096);
        let part = part_of(data, i);
        assert(first.take(part.len() as int) == part);
        assert forall|t: int| 0 <= t < data.len() - i * 4096 implies #[trigger] all.take(
            data.len() - i * 4096,
        )[t] == want[t] by {
            if t < 4096 {
                assert(first.take(part.len() as int)[t] == part[t]);
            } else {
                assert(i + 1 < n);
                assert(rest.take(data.len() - (i + 1) * 4096)[t - 4096] == data.skip(
                    (i + 1) * 4096,
                )[t - 4096]);
            }
        }
        assert(all.take(data.len() - i * 4096) =~= want);
    }
}

/// The inode with another `meta` has the tree that it had.
#[verifier::rlimit(100)]
proof fn lemma_meta_is_no_pointer(inode: Inode, fs: FsState, slot: u32, live: Set<int>, meta: u32)
    requires
        tree(inode, fs, slot, live),
    ensures
        tree(Inode { meta, ..inode }, fs, slot, live),
        forall|n: int| #[trigger]
            node_block(Inode { meta, ..inode }, fs.image, n) == node_block(inode, fs.image, n),
{
    let changed = Inode { meta, ..inode };
    assert forall|n: int| #[trigger]
        node_block(changed, fs.image, n) == node_block(inode, fs.image, n) by {}
}

/// What was written to a file is what is read from it. Where a file, whatever it
/// held, is written on a well-formed filesystem, and the write succeeds, then
/// its whole content, cut where `meta` says that it ends, is the data; exactly
/// the blocks that the data takes resolve; `meta` is the length of the data
/// modulo 4096; and the inode is stored as the write left it.
#[verifier::spinoff_prover]
#[verifier::rlimit(100)]
pub proof fn lemma_write_then_read(inode: Inode, fs: FsState, slot: u32, k: int, data: Seq<u8>)
    requires
        fs.wf(),
        home(fs, slot),
        tree(inode, fs, slot, nodes_for(k)),
        0 <= k <= MAX_BLOCKS,
        inode.write_file(fs, slot, data).2 is Ok,
    ensures
        ({
            let w = inode.write_file(fs, slot, data);
            &&& trimmed(w.1.whole(w.0.image, 0), w.1.meta) == data
            &&& w.1.meta == data.len() % 4096
            &&& w.0.inode(slot) == Ok::<Inode, FsError>(w.1)
            &&& w.0.wf()
            &&& home(w.0, slot)
            &&& tree(w.1, w.0, slot, nodes_for(Inode::blocks_for(data.len())))
            &&& forall|i: u32|
                w.1.resolve(w.0.image, i) is Some <==> i < Inode::blocks_for(data.len())
        }),
{
    let n = Inode::blocks_for(data.len()) as u32;
    let live = nodes_for(n as int);
    let r = inode.resize(fs, slot, n);
    lemma_resize_any(inode, fs, slot, k, n);
    let c = r.1.store_parts(r.0, data, 0, n);
    lemma_store_parts(r.1, r.0, slot, data, 0, n);
    let meta = (data.len() % 4096) as u32;
    let changed = Inode { meta, ..r.1 };
    lemma_meta_is_no_pointer(r.1, c.0, slot, live, meta);
    let w = c.0.put_inode(slot, changed);
    lemma_stored(changed, c.0, slot, live);
    assert(inode.write_file(fs, slot, data) == (w.0, changed, w.1));
    lemma_whole(changed, w.0, slot, n as int, 0);
    assert forall|j: int| 0 <= j < n implies (#[trigger] w.0.block(
        node_block(changed, w.0.image, j),
    )).take(part_of(data, j).len() as int) == part_of(data, j) by {
        assert(live.contains(j));
        let b = node_block(r.1, r.0.image, j);
        assert(node_block(r.1, c.0.image, j) == b);
        assert(node_block(changed, c.0.image, j) == b);
        assert(node_block(changed, w.0.image, j) == b);
        assert(w.0.block(node_block(changed, w.0.image, j)) == c.0.block(
            node_block(changed, c.0.image, j),
        ));
        assert(c.0.block(node_block(r.1, c.0.image, j)) == splice(
            r.0.block(b),
            0,
            part_of(data, j),
        ));
        assert(splice(r.0.block(b), 0, part_of(data, j)).take(part_of(data, j).len() as int)
            =~= part_of(data, j));
    }
    lemma_gathered_parts(changed, w.0, data, 0, n as int);
    let all = gathered(changed, w.0, 0, n as int);
    if n > 0 {
        assert(data.skip(0) =~= data);
        if meta == 0 {
            assert(all.take(data.len() as int) =~= all);
        }
    } else {
        assert(data =~= Seq::<u8>::empty());
    }
    assert forall|i: u32| changed.resolve(w.0.image, i) is Some <==> i < n by {
        lemma_resolve(changed, w.0, slot, live, i);
    }
}

} // verus!
