//! When giving an inode more blocks succeeds: where the allocator has the blocks
//! that the growth takes, and one more.

use crate::allocation::{lemma_allocate, lemma_allocate_succeeds};
use crate::files::{lemma_cut_down, lemma_grow, lemma_resize_any, lemma_store_parts, lemma_stored};
use crate::fs::{FsError, FsState};
use crate::inode::{Inode, InodeType, MAX_BLOCKS};
use crate::tree::{
    doubly_node, grew, home, inner_node, is_node, lemma_extend_direct_is_placed,
    lemma_doubly_is_placed, lemma_first_unresolved, lemma_grew_not, lemma_grows_in_inode,
    lemma_extend, lemma_grows_in_table, lemma_node_in_parent, lemma_put_inode, lemma_resolve,
    lemma_singly_is_placed,
    node_block, nodes_for, owned, parent, placed, position, singly_node, tree, with_field,
};
use vstd::prelude::*;

verus! {

/// The number of blocks in a tree with `k` blocks of content: those blocks, the
/// singly indirect block where there are more than 10 of them, and where there
/// are more than 1034, the doubly indirect block and one pointer block for every
/// 1024 of the rest.
pub open spec fn tree_size(k: int) -> int {
    k + if k > 10 {
        1int
    } else {
        0int
    } + if k > 1034 {
        1 + (k - 11) / 1024
    } else {
        0int
    }
}

/// Whether the allocator can hand out `n` blocks one after the other: it names an
/// earliest free block, and counts more than `n` unused blocks.
pub open spec fn can_take(fs: FsState, n: int) -> bool {
    &&& fs.superblock.earliest_free != 0
    &&& fs.superblock.total_unused > n
}

/// Whether `n` blocks have left the allocator between `fs` and `after`, and it
/// still names an earliest free block.
pub open spec fn took(fs: FsState, after: FsState, n: int) -> bool {
    &&& after.superblock.earliest_free != 0
    &&& after.superblock.total_unused == fs.superblock.total_unused - n
}

/// A new pointer of the inode gets its block where the allocator can hand out
/// one.
#[verifier::rlimit(100)]
proof fn lemma_placed_succeeds(inode: Inode, fs: FsState, slot: u32, p: int)
    requires
        fs.wf(),
        home(fs, slot),
        can_take(fs, 1),
    ensures
        placed(inode, fs, slot, p).2 is Ok,
        took(fs, placed(inode, fs, slot, p).0, 1),
{
    lemma_allocate_succeeds(fs, false);
    lemma_allocate(fs, false);
    let a = fs.allocate(false);
    lemma_put_inode(a.0, slot, with_field(inode, p, a.1->Ok_0));
}

/// A new entry of a pointer block gets its block where the allocator can hand
/// out one.
#[verifier::rlimit(100)]
proof fn lemma_extend_table_succeeds(fs: FsState, table: u32, e: int)
    requires
        fs.wf(),
        can_take(fs, 1),
        table < fs.superblock.total_blocks,
        0 <= e < 1024,
    ensures
        Inode::extend_table(fs, table, e).1 is Ok,
        took(fs, Inode::extend_table(fs, table, e).0, 1),
{
    reveal(Inode::extend_table);
    lemma_allocate_succeeds(fs, false);
    lemma_allocate(fs, false);
}

/// `get_next_free_block` succeeds on a tree with `k` blocks of content, fewer
/// than an inode can have, where the allocator can hand out the blocks that the
/// next block of content takes: that block, and the pointer blocks that lead to
/// it and are not there yet.
#[verifier::spinoff_prover]
#[verifier::rlimit(100)]
pub proof fn lemma_extend_succeeds(inode: Inode, fs: FsState, slot: u32, k: int)
    requires
        fs.wf(),
        home(fs, slot),
        tree(inode, fs, slot, nodes_for(k)),
        0 <= k < MAX_BLOCKS,
        can_take(fs, tree_size(k + 1) - tree_size(k)),
    ensures
        inode.extend(fs, slot).2 is Ok,
        took(fs, inode.extend(fs, slot).0, tree_size(k + 1) - tree_size(k)),
{
    lemma_first_unresolved(inode, fs, slot, k, 0);
    let live = nodes_for(k);
    if k < 10 {
        lemma_extend_direct_is_placed(inode, fs, slot, k as u32);
        lemma_placed_succeeds(inode, fs, slot, k);
    } else if k < 1034 {
        let s = inode.with_singly_block(fs, slot);
        let with_table = if k == 10 {
            live.insert(singly_node())
        } else {
            live
        };
        if k == 10 {
            assert(node_block(inode, fs.image, singly_node()) == 0);
            lemma_singly_is_placed(inode, fs, slot);
            lemma_placed_succeeds(inode, fs, slot, 10);
            lemma_grows_in_inode(inode, fs, slot, live, singly_node());
        } else {
            assert(live.contains(singly_node()));
            assert(owned(fs, slot, node_block(inode, fs.image, singly_node())));
            reveal(Inode::with_singly_block);
            lemma_grew_not(inode, fs, slot, live);
        }
        assert(grew(inode, fs, slot, live, s.1, s.0, with_table));
        assert(with_table.contains(singly_node()));
        let singly = node_block(s.1, s.0.image, singly_node());
        assert(s.2 == Ok::<u32, FsError>(singly));
        assert(owned(s.0, slot, singly));
        lemma_extend_table_succeeds(s.0, singly, k - 10);
    } else {
        lemma_extend_deep_succeeds(inode, fs, slot, k);
    }
}

/// The same for a block of content that the doubly indirect block leads to.
#[verifier::spinoff_prover]
#[verifier::rlimit(100)]
proof fn lemma_extend_deep_succeeds(inode: Inode, fs: FsState, slot: u32, k: int)
    requires
        fs.wf(),
        home(fs, slot),
        tree(inode, fs, slot, nodes_for(k)),
        1034 <= k < MAX_BLOCKS,
        inode.first_unresolved(fs.image, 0) == k,
        can_take(fs, tree_size(k + 1) - tree_size(k)),
    ensures
        inode.extend(fs, slot).2 is Ok,
        took(fs, inode.extend(fs, slot).0, tree_size(k + 1) - tree_size(k)),
{
    let live = nodes_for(k);
    let j = (k - 10) / 1024;
    let e = (k - 10) % 1024;
    assert(tree_size(k + 1) - tree_size(k) == 1 + if k == 1034 {
        2int
    } else if e == 0 {
        1int
    } else {
        0int
    });
    let d = inode.with_doubly_block(fs, slot);
    let with_top = if k == 1034 {
        live.insert(doubly_node())
    } else {
        live
    };
    if k == 1034 {
        assert(node_block(inode, fs.image, doubly_node()) == 0);
        lemma_doubly_is_placed(inode, fs, slot);
        lemma_placed_succeeds(inode, fs, slot, 11);
        lemma_grows_in_inode(inode, fs, slot, live, doubly_node());
    } else {
        assert(live.contains(doubly_node()));
        assert(owned(fs, slot, node_block(inode, fs.image, doubly_node())));
        reveal(Inode::with_doubly_block);
        lemma_grew_not(inode, fs, slot, live);
    }
    assert(grew(inode, fs, slot, live, d.1, d.0, with_top));
    assert(with_top.contains(doubly_node()));
    let doubly = node_block(d.1, d.0.image, doubly_node());
    assert(d.2 == Ok::<u32, FsError>(doubly));
    assert(owned(d.0, slot, doubly));
    let inner = inner_node(j);
    assert(parent(inner) == doubly_node() && position(inner) == j);
    assert(is_node(inner));
    let s = Inode::with_inner_block(d.0, doubly, j);
    let with_inner = if e == 0 {
        with_top.insert(inner)
    } else {
        with_top
    };
    reveal(Inode::with_inner_block);
    lemma_node_in_parent(d.1, d.0.image, inner);
    if e == 0 {
        assert(!with_top.contains(inner));
        assert(node_block(d.1, d.0.image, inner) == 0);
        lemma_extend_table_succeeds(d.0, doubly, j);
        lemma_grows_in_table(d.1, d.0, slot, with_top, inner);
    } else {
        assert(live.contains(inner));
        assert(with_top.contains(inner));
        assert(owned(d.0, slot, node_block(d.1, d.0.image, inner)));
        lemma_grew_not(d.1, d.0, slot, with_top);
    }
    assert(grew(d.1, d.0, slot, with_top, d.1, s.0, with_inner));
    assert(with_inner.contains(inner));
    let table = node_block(d.1, s.0.image, inner);
    assert(s.1 == Ok::<u32, FsError>(table));
    assert(owned(s.0, slot, table));
    lemma_extend_table_succeeds(s.0, table, e);
}

/// Giving an inode with `k` blocks of content the blocks that it lacks below
/// `to` succeeds where the allocator can hand out the blocks by which a tree with
/// `to` blocks of content is larger; those blocks then have left the allocator.
/// An inode that has as many blocks stays as it is.
#[verifier::rlimit(100)]
pub proof fn lemma_grow_succeeds(inode: Inode, fs: FsState, slot: u32, k: int, i: u32, to: u32)
    requires
        fs.wf(),
        home(fs, slot),
        tree(inode, fs, slot, nodes_for(k)),
        0 <= i <= k <= MAX_BLOCKS,
        to <= MAX_BLOCKS,
        k < to ==> can_take(fs, tree_size(to as int) - tree_size(k)),
    ensures
        inode.grow(fs, slot, i, to).2 is Ok,
        k < to ==> took(fs, inode.grow(fs, slot, i, to).0, tree_size(to as int) - tree_size(k)),
        k >= to ==> inode.grow(fs, slot, i, to).0 == fs && inode.grow(fs, slot, i, to).1 == inode,
    decreases to - i,
{
    if i < to {
        lemma_resolve(inode, fs, slot, nodes_for(k), i);
        if inode.resolve(fs.image, i) is Some {
            lemma_grow_succeeds(inode, fs, slot, k, (i + 1) as u32, to);
        } else {
            assert(i == k);
            assert(1 <= tree_size(k + 1) - tree_size(k) <= tree_size(to as int) - tree_size(k));
            lemma_extend_succeeds(inode, fs, slot, k);
            lemma_extend(inode, fs, slot, k);
            let e = inode.extend(fs, slot);
            lemma_grow_succeeds(e.1, e.0, slot, k + 1, (i + 1) as u32, to);
        }
    }
}

/// `resize_self` to `to` blocks succeeds on a tree with `k` blocks of content:
/// always where it has as many, and else where the allocator can hand out the
/// blocks by which a tree with `to` blocks of content is larger.
#[verifier::spinoff_prover]
#[verifier::rlimit(100)]
pub proof fn lemma_resize_succeeds(inode: Inode, fs: FsState, slot: u32, k: int, to: u32)
    requires
        fs.wf(),
        home(fs, slot),
        tree(inode, fs, slot, nodes_for(k)),
        0 <= k <= MAX_BLOCKS,
        to <= MAX_BLOCKS,
        k < to ==> can_take(fs, tree_size(to as int) - tree_size(k)),
    ensures
        inode.resize(fs, slot, to).2 is Ok,
{
    reveal(Inode::resize);
    let g = inode.grow(fs, slot, 0, to);
    lemma_grow_succeeds(inode, fs, slot, k, 0, to);
    lemma_grow(inode, fs, slot, k, 0, to);
    let kk = if k <= to {
        to as int
    } else {
        k
    };
    lemma_cut_down(g.1, g.0, slot, kk, to);
    let d = g.1.drop_direct(g.0, to);
    let s = d.1.cut_singly(d.0, to);
    let t = s.1.cut_doubly(s.0, to);
    lemma_stored(t.1, t.0, slot, nodes_for(to as int));
}

/// `file_write` succeeds on a file with `k` blocks of content where the data
/// takes no more blocks than an inode can have, and the allocator can hand out
/// the blocks by which the tree has to grow for it.
#[verifier::spinoff_prover]
#[verifier::rlimit(100)]
pub proof fn lemma_write_succeeds(inode: Inode, fs: FsState, slot: u32, k: int, data: Seq<u8>)
    requires
        fs.wf(),
        home(fs, slot),
        tree(inode, fs, slot, nodes_for(k)),
        0 <= k <= MAX_BLOCKS,
        inode.type_and_permission.inode_type() == InodeType::File,
        Inode::blocks_for(data.len()) <= MAX_BLOCKS,
        k < Inode::blocks_for(data.len()) ==> can_take(
            fs,
            tree_size(Inode::blocks_for(data.len())) - tree_size(k),
        ),
    ensures
        inode.write_file(fs, slot, data).2 is Ok,
{
    let n = Inode::blocks_for(data.len()) as u32;
    let r = inode.resize(fs, slot, n);
    lemma_resize_succeeds(inode, fs, slot, k, n);
    lemma_resize_any(inode, fs, slot, k, n);
    let c = r.1.store_parts(r.0, data, 0, n);
    lemma_store_parts(r.1, r.0, slot, data, 0, n);
    lemma_put_inode(c.0, slot, Inode { meta: (data.len() % 4096) as u32, ..r.1 });
}

} // verus!
