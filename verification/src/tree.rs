//! The tree of blocks that an inode refers to, and what keeps it sound while it
//! grows.

use crate::allocation::{
    changed_only, lemma_allocate, lemma_write_keeps_entries, same_identity, usable,
};
use crate::codec::{le_bytes, le_u32, lemma_le_u32_round_trip, span, splice, zeros};
use crate::fs::{BlockArrayEntry, FsError, FsState};
use crate::inode::{entry_addr, Inode, MAX_BLOCKS};
use vstd::prelude::*;

verus! {

/// The node of the singly indirect block. The nodes below it are those of the
/// blocks of content, each with the index of its part of the content.
pub open spec fn singly_node() -> int {
    MAX_BLOCKS as int
}

/// The node of the doubly indirect block.
pub open spec fn doubly_node() -> int {
    MAX_BLOCKS + 1
}

/// The node of the singly indirect block that entry `j` of the doubly indirect
/// block names.
pub open spec fn inner_node(j: int) -> int {
    MAX_BLOCKS + 2 + j
}

/// Whether `n` is a node of the tree.
pub open spec fn is_node(n: int) -> bool {
    0 <= n < MAX_BLOCKS + 1026
}

/// The node whose block holds the pointer to the block of node `n`; -1 where the
/// inode itself holds it.
pub open spec fn parent(n: int) -> int {
    if n < 10 {
        -1
    } else if n < 1034 {
        singly_node()
    } else if n < MAX_BLOCKS {
        inner_node((n - 10) / 1024)
    } else if n <= doubly_node() {
        -1
    } else {
        doubly_node()
    }
}

/// Where in its parent the pointer to the block of node `n` stands: the number of
/// the entry in a pointer block; in the inode, the number of the direct pointer,
/// 10 for the singly and 11 for the doubly indirect pointer.
pub open spec fn position(n: int) -> int {
    if n < 10 {
        n
    } else if n < 1034 {
        n - 10
    } else if n < MAX_BLOCKS {
        (n - 10) % 1024
    } else if n == singly_node() {
        10
    } else if n == doubly_node() {
        11
    } else {
        n - MAX_BLOCKS - 2
    }
}

/// The pointer of the inode at position `p`.
pub open spec fn inode_field(inode: Inode, p: int) -> u32 {
    if p < 10 {
        inode.block_pointers@[p]
    } else if p == 10 {
        inode.singly_indirect_block_pointer
    } else {
        inode.doubly_indirect_block_pointer
    }
}

/// The inode with `block` as its pointer at position `p`.
pub open spec fn with_field(inode: Inode, p: int, block: u32) -> Inode {
    if p < 10 {
        inode.with_pointer(p, block)
    } else if p == 10 {
        Inode { singly_indirect_block_pointer: block, ..inode }
    } else {
        Inode { doubly_indirect_block_pointer: block, ..inode }
    }
}

/// Entry `e` of the pointer block `table`.
pub open spec fn tree_entry(img: Seq<u8>, table: u32, e: int) -> u32 {
    le_u32(img, entry_addr(table, e))
}

/// The pointer that stands where the tree has the block of node `n`.
pub open spec fn node_block(inode: Inode, img: Seq<u8>, n: int) -> u32 {
    if parent(n) == -1 {
        inode_field(inode, position(n))
    } else if parent(n) == singly_node() {
        tree_entry(img, inode.singly_indirect_block_pointer, position(n))
    } else if parent(n) == doubly_node() {
        tree_entry(img, inode.doubly_indirect_block_pointer, position(n))
    } else {
        tree_entry(
            img,
            tree_entry(img, inode.doubly_indirect_block_pointer, parent(n) - MAX_BLOCKS - 2),
            position(n),
        )
    }
}

/// The nodes of a tree with `k` blocks of content: those blocks, and the pointer
/// blocks on the way to them.
pub open spec fn nodes_for(k: int) -> Set<int> {
    Set::new(
        |n: int|
            if n < MAX_BLOCKS {
                0 <= n < k
            } else if n == singly_node() {
                k > 10
            } else if n == doubly_node() {
                k > 1034
            } else {
                1 <= n - MAX_BLOCKS - 2 < 1024 && 1024 * (n - MAX_BLOCKS - 2) + 10 < k
            },
    )
}

/// Whether `block` is one that an inode may refer to: a usable block that the
/// bitmaps say is allocated, and no inode block.
pub open spec fn owned(fs: FsState, slot: u32, block: u32) -> bool {
    &&& usable(fs, block)
    &&& fs.entry(block) == BlockArrayEntry::Allocated
    &&& block != slot / 32
}

/// Whether slot `slot` lies in a usable block that the bitmaps say is an inode
/// block.
pub open spec fn home(fs: FsState, slot: u32) -> bool {
    &&& usable(fs, slot / 32)
    &&& fs.entry(slot / 32) == BlockArrayEntry::InodeBlock
}

/// Whether the tree of `inode` has exactly the nodes `live`: each of them has a
/// block that the inode may refer to, no two of them the same block, and where a
/// node is missing from a parent that is there, the pointer is zero.
pub open spec fn tree(inode: Inode, fs: FsState, slot: u32, live: Set<int>) -> bool {
    &&& forall|n: int| #[trigger]
        live.contains(n) ==> is_node(n) && (parent(n) == -1 || live.contains(parent(n)))
    &&& forall|n: int|
        live.contains(n) ==> owned(fs, slot, #[trigger] node_block(inode, fs.image, n))
    &&& forall|n1: int, n2: int|
        live.contains(n1) && live.contains(n2) && n1 != n2 ==> #[trigger] node_block(
            inode,
            fs.image,
            n1,
        ) != #[trigger] node_block(inode, fs.image, n2)
    &&& forall|n: int|
        is_node(n) && !live.contains(n) && (parent(n) == -1 || live.contains(parent(n)))
            ==> #[trigger] node_block(inode, fs.image, n) == 0
}

/// An inode whose pointers are all zero has the tree without nodes.
#[verifier::rlimit(100)]
pub proof fn lemma_no_blocks(inode: Inode, fs: FsState, slot: u32)
    requires
        forall|i: int| 0 <= i < 10 ==> inode.block_pointers@[i] == 0,
        inode.singly_indirect_block_pointer == 0,
        inode.doubly_indirect_block_pointer == 0,
    ensures
        tree(inode, fs, slot, nodes_for(0)),
{
}

/// A node below a pointer block has its pointer in that block.
#[verifier::rlimit(100)]
pub proof fn lemma_node_in_parent(inode: Inode, img: Seq<u8>, n: int)
    requires
        is_node(n),
        parent(n) != -1,
    ensures
        node_block(inode, img, n) == tree_entry(
            img,
            node_block(inode, img, parent(n)),
            position(n),
        ),
        is_node(parent(n)),
        0 <= position(n) < 1024,
{
}

/// Two nodes with the same parent and the same position are the same node.
#[verifier::rlimit(100)]
pub proof fn lemma_node_of_place(n1: int, n2: int)
    requires
        is_node(n1),
        is_node(n2),
        parent(n1) == parent(n2),
        position(n1) == position(n2),
    ensures
        n1 == n2,
{
}

/// An entry of a pointer block is the same in two images that agree on its four
/// bytes.
#[verifier::rlimit(100)]
pub proof fn lemma_entry_kept(a: Seq<u8>, b: Seq<u8>, table: u32, e: int)
    requires
        a[entry_addr(table, e)] == b[entry_addr(table, e)],
        a[entry_addr(table, e) + 1] == b[entry_addr(table, e) + 1],
        a[entry_addr(table, e) + 2] == b[entry_addr(table, e) + 2],
        a[entry_addr(table, e) + 3] == b[entry_addr(table, e) + 3],
    ensures
        tree_entry(a, table, e) == tree_entry(b, table, e),
{
}

/// Whether image `b` holds what image `a` holds in every usable block but the
/// blocks `fresh` and `house`, and but the four bytes of entry `e` of the block
/// `table`.
pub open spec fn agrees_but(a: Seq<u8>, b: Seq<u8>, fresh: u32, house: u32, table: int, e: int) -> bool {
    &&& a.len() == b.len()
    &&& forall|at: int|
        0 <= at < a.len() && at / 4096 >= 2 && (at / 4096) % 16384 != 0 && at / 4096 != fresh && at
            / 4096 != house && !(at / 4096 == table && 4 * e <= at % 4096 < 4 * e + 4)
            ==> #[trigger] b[at] == a[at]
}

/// An entry of a block that the inode refers to is kept by a change that leaves
/// the block alone, or changes another entry of it.
#[verifier::rlimit(100)]
proof fn lemma_owned_entry_kept(
    fs: FsState,
    slot: u32,
    img: Seq<u8>,
    fresh: u32,
    table: int,
    e: int,
    block: u32,
    pos: int,
)
    requires
        fs.wf(),
        owned(fs, slot, block),
        fs.entry(fresh) == BlockArrayEntry::Unused,
        agrees_but(fs.image, img, fresh, slot / 32, table, e),
        0 <= pos < 1024,
        block != table || pos != e,
    ensures
        tree_entry(img, block, pos) == tree_entry(fs.image, block, pos),
{
    let at = entry_addr(block, pos);
    assert(at / 4096 == block && (at + 1) / 4096 == block && (at + 2) / 4096 == block && (at + 3)
        / 4096 == block);
    assert(at % 4096 == 4 * pos && (at + 1) % 4096 == 4 * pos + 1 && (at + 2) % 4096 == 4 * pos + 2
        && (at + 3) % 4096 == 4 * pos + 3);
    assert(img[at] == fs.image[at]);
    assert(img[at + 1] == fs.image[at + 1]);
    assert(img[at + 2] == fs.image[at + 2]);
    assert(img[at + 3] == fs.image[at + 3]);
    lemma_entry_kept(fs.image, img, block, pos);
}

/// While a new node gets its pointer in a pointer block, every other node whose
/// parent is there keeps its pointer.
#[verifier::rlimit(100)]
proof fn lemma_kept_beside_table(
    inode: Inode,
    fs: FsState,
    slot: u32,
    live: Set<int>,
    new: int,
    img: Seq<u8>,
    fresh: u32,
    n: int,
)
    requires
        fs.wf(),
        tree(inode, fs, slot, live),
        is_node(new),
        !live.contains(new),
        live.contains(parent(new)),
        fs.entry(fresh) == BlockArrayEntry::Unused,
        agrees_but(
            fs.image,
            img,
            fresh,
            slot / 32,
            node_block(inode, fs.image, parent(new)) as int,
            position(new),
        ),
        is_node(n),
        n != new,
        parent(n) == -1 || live.contains(parent(n)),
    ensures
        node_block(inode, img, n) == node_block(inode, fs.image, n),
{
    let p = parent(n);
    let t = node_block(inode, fs.image, parent(new));
    if p != -1 {
        lemma_node_in_parent(inode, fs.image, n);
        lemma_node_in_parent(inode, img, n);
        if parent(p) != -1 {
            // the parent's own pointer lies in the doubly indirect block
            lemma_node_in_parent(inode, fs.image, p);
            lemma_node_in_parent(inode, img, p);
            let d = node_block(inode, fs.image, parent(p));
            assert(live.contains(parent(p)));
            assert(owned(fs, slot, d));
            if d == t && position(p) == position(new) {
                assert(parent(p) == parent(new));
                lemma_node_of_place(p, new);
            }
            lemma_owned_entry_kept(fs, slot, img, fresh, t as int, position(new), d, position(p));
        }
        let b = node_block(inode, fs.image, p);
        assert(node_block(inode, img, p) == b);
        assert(owned(fs, slot, b));
        if b == t && position(n) == position(new) {
            assert(p == parent(new));
            lemma_node_of_place(n, new);
        }
        lemma_owned_entry_kept(fs, slot, img, fresh, t as int, position(new), b, position(n));
    }
}

/// A tree stays one when a new node joins it with an unused block that now holds
/// zeros, as an entry of a pointer block.
#[verifier::spinoff_prover]
#[verifier::rlimit(100)]
proof fn lemma_tree_grows_in_table(
    inode: Inode,
    fs: FsState,
    slot: u32,
    live: Set<int>,
    new: int,
    after: FsState,
    block: u32,
)
    requires
        fs.wf(),
        tree(inode, fs, slot, live),
        is_node(new),
        !live.contains(new),
        live.contains(parent(new)),
        usable(fs, block),
        block != slot / 32,
        fs.entry(block) == BlockArrayEntry::Unused,
        after.entry(block) == BlockArrayEntry::Allocated,
        after.superblock.total_blocks == fs.superblock.total_blocks,
        after.block(block) == zeros(4096),
        agrees_but(
            fs.image,
            after.image,
            block,
            slot / 32,
            node_block(inode, fs.image, parent(new)) as int,
            position(new),
        ),
        tree_entry(after.image, node_block(inode, fs.image, parent(new)), position(new)) == block,
        forall|other: u32|
            other != block && other < fs.superblock.total_blocks ==> #[trigger] after.entry(other)
                == fs.entry(other),
    ensures
        tree(inode, after, slot, live.insert(new)),
        node_block(inode, after.image, new) == block,
        forall|n: int|
            is_node(n) && n != new && (parent(n) == -1 || live.contains(parent(n)))
                ==> #[trigger] node_block(inode, after.image, n) == node_block(inode, fs.image, n),
{
    let table = node_block(inode, fs.image, parent(new));
    assert forall|n: int|
        is_node(n) && n != new && (parent(n) == -1 || live.contains(parent(n)))
            implies #[trigger] node_block(inode, after.image, n) == node_block(
        inode,
        fs.image,
        n,
    ) by {
        lemma_kept_beside_table(inode, fs, slot, live, new, after.image, block, n);
    }
    assert(node_block(inode, after.image, parent(new)) == table);
    lemma_node_in_parent(inode, after.image, new);
    assert(node_block(inode, after.image, new) == block);
    let grown = live.insert(new);
    assert forall|n: int| grown.contains(n) implies owned(
        after,
        slot,
        #[trigger] node_block(inode, after.image, n),
    ) by {
        if n != new {
            let b = node_block(inode, fs.image, n);
            assert(owned(fs, slot, b));
            assert(after.entry(b) == fs.entry(b));
        }
    }
    assert forall|n1: int, n2: int|
        grown.contains(n1) && grown.contains(n2) && n1 != n2 implies #[trigger] node_block(
        inode,
        after.image,
        n1,
    ) != #[trigger] node_block(inode, after.image, n2) by {
        if n1 != new {
            assert(owned(fs, slot, node_block(inode, fs.image, n1)));
        }
        if n2 != new {
            assert(owned(fs, slot, node_block(inode, fs.image, n2)));
        }
    }
    assert forall|n: int|
        is_node(n) && !grown.contains(n) && (parent(n) == -1 || grown.contains(parent(n)))
            implies #[trigger] node_block(inode, after.image, n) == 0 by {
        if parent(n) == new {
            lemma_node_in_parent(inode, after.image, n);
            lemma_zero_entry(after.image, block, position(n));
        } else {
            assert(node_block(inode, fs.image, n) == 0);
        }
    }
}

/// What giving a pointer block a newly allocated block as an entry does to a
/// tree: the node at that entry joins the tree with the new block, which holds
/// zeros; every other node keeps its block; the filesystem stays well-formed; and
/// outside the new block and the entry no byte of a usable block has changed.
#[verifier::spinoff_prover]
#[verifier::rlimit(100)]
pub proof fn lemma_attach_in_table(inode: Inode, fs: FsState, slot: u32, live: Set<int>, new: int)
    requires
        fs.wf(),
        home(fs, slot),
        tree(inode, fs, slot, live),
        is_node(new),
        !live.contains(new),
        live.contains(parent(new)),
        Inode::extend_table(
            fs,
            node_block(inode, fs.image, parent(new)),
            position(new),
        ).1 is Ok,
    ensures
        ({
            let table = node_block(inode, fs.image, parent(new));
            let made = Inode::extend_table(fs, table, position(new));
            let after = made.0;
            let block = made.1->Ok_0;
            &&& after.wf()
            &&& home(after, slot)
            &&& tree(inode, after, slot, live.insert(new))
            &&& node_block(inode, after.image, new) == block
            &&& after.block(block) == zeros(4096)
            &&& fs.entry(block) == BlockArrayEntry::Unused
            &&& same_identity(after.superblock, fs.superblock)
            &&& after.superblock.earliest_inode_space == fs.superblock.earliest_inode_space
            &&& agrees_but(fs.image, after.image, block, block, table as int, position(new))
            &&& forall|n: int|
                is_node(n) && n != new && (parent(n) == -1 || live.contains(parent(n)))
                    ==> #[trigger] node_block(inode, after.image, n) == node_block(
                    inode,
                    fs.image,
                    n,
                )
            &&& forall|other: u32|
                other != block && other < fs.superblock.total_blocks ==> #[trigger] after.entry(other)
                    == fs.entry(other)
        }),
{
    reveal(Inode::extend_table);
    let table = node_block(inode, fs.image, parent(new));
    let e = position(new);
    let taken = fs.allocate(false);
    lemma_allocate(fs, false);
    let block = taken.1->Ok_0;
    let at = entry_addr(table, e);
    let after = Inode::extend_table(fs, table, e).0;
    assert(owned(fs, slot, table));
    assert(table != block);
    assert(parent(new) != -1);
    lemma_node_in_parent(inode, fs.image, new);
    assert(after.image == splice(taken.0.image, at, le_bytes(block as int, 4)));
    lemma_write_keeps_entries(taken.0, table, 4 * e, le_bytes(block as int, 4));
    assert(after.block(block) =~= taken.0.block(block));
    assert(agrees_but(fs.image, after.image, block, block, table as int, e)) by {
        assert forall|a: int|
            0 <= a < fs.image.len() && a / 4096 >= 2 && (a / 4096) % 16384 != 0 && a / 4096
                != block && !(a / 4096 == table && 4 * e <= a % 4096 < 4 * e + 4)
                implies #[trigger] after.image[a] == fs.image[a] by {
            assert(taken.0.image[a] == fs.image[a]);
        }
    }
    assert(agrees_but(fs.image, after.image, block, slot / 32, table as int, e));
    assert(after.image.subrange(at, at + 4) =~= le_bytes(block as int, 4));
    lemma_le_u32_round_trip(after.image, at, block);
    assert forall|other: u32|
        other != block && other < fs.superblock.total_blocks implies #[trigger] after.entry(other)
        == fs.entry(other) by {
        assert(after.entry(other) == taken.0.entry(other));
    }
    assert(after.entry(block) == taken.0.entry(block));
    lemma_tree_grows_in_table(inode, fs, slot, live, new, after, block);
    assert(after.entry(slot / 32) == fs.entry(slot / 32));
}

/// An entry of a block of zeros is zero.
#[verifier::rlimit(100)]
proof fn lemma_zero_entry(img: Seq<u8>, block: u32, e: int)
    requires
        0 <= e < 1024,
        span(img, block * 4096, 4096) == zeros(4096),
    ensures
        tree_entry(img, block, e) == 0,
{
    let s = span(img, block * 4096, 4096);
    let at = entry_addr(block, e);
    assert(img[at] == s[4 * e] && img[at + 1] == s[4 * e + 1] && img[at + 2] == s[4 * e + 2]
        && img[at + 3] == s[4 * e + 3]);
}

/// The state, inode and result of giving the inode a newly allocated block as its
/// pointer at position `p`, and storing the inode in slot `slot`.
pub open spec fn placed(inode: Inode, fs: FsState, slot: u32, p: int) -> (
    FsState,
    Inode,
    Result<u32, FsError>,
) {
    let a = fs.allocate(false);
    match a.1 {
        Err(e) => (a.0, inode, Err(e)),
        Ok(block) => {
            let w = a.0.put_inode(slot, with_field(inode, p, block));
            (
                w.0,
                with_field(inode, p, block),
                match w.1 {
                    Ok(_) => Ok(block),
                    Err(e) => Err(e),
                },
            )
        },
    }
}

/// While a new node gets its pointer in the inode, every other node whose parent
/// is there keeps its pointer.
#[verifier::rlimit(100)]
proof fn lemma_kept_beside_inode(
    inode: Inode,
    fs: FsState,
    slot: u32,
    live: Set<int>,
    new: int,
    img: Seq<u8>,
    fresh: u32,
    n: int,
)
    requires
        fs.wf(),
        tree(inode, fs, slot, live),
        is_node(new),
        !live.contains(new),
        parent(new) == -1,
        fs.entry(fresh) == BlockArrayEntry::Unused,
        agrees_but(fs.image, img, fresh, slot / 32, -1, 0),
        is_node(n),
        n != new,
        parent(n) == -1 || live.contains(parent(n)),
    ensures
        node_block(with_field(inode, position(new), fresh), img, n) == node_block(
            inode,
            fs.image,
            n,
        ),
{
    let changed = with_field(inode, position(new), fresh);
    let p = parent(n);
    if p == -1 {
        if position(n) == position(new) {
            lemma_node_of_place(n, new);
        }
    } else {
        lemma_node_in_parent(inode, fs.image, n);
        lemma_node_in_parent(changed, img, n);
        if parent(p) != -1 {
            lemma_node_in_parent(inode, fs.image, p);
            lemma_node_in_parent(changed, img, p);
            let d = node_block(inode, fs.image, parent(p));
            assert(live.contains(parent(p)));
            assert(node_block(changed, img, parent(p)) == d);
            assert(owned(fs, slot, d));
            lemma_owned_entry_kept(fs, slot, img, fresh, -1, 0, d, position(p));
        }
        let b = node_block(inode, fs.image, p);
        assert(node_block(changed, img, p) == b);
        assert(owned(fs, slot, b));
        lemma_owned_entry_kept(fs, slot, img, fresh, -1, 0, b, position(n));
    }
}

/// What storing an inode in a slot of a usable block does: the slot then holds the
/// inode; no byte outside the block has changed; the bitmaps say what they said;
/// and a well-formed filesystem stays well-formed.
#[verifier::rlimit(100)]
pub proof fn lemma_put_inode(fs: FsState, slot: u32, inode: Inode)
    requires
        usable(fs, slot / 32),
        fs.image.len() >= fs.superblock.total_blocks * 4096,
    ensures
        ({
            let after = fs.put_inode(slot, inode).0;
            &&& fs.put_inode(slot, inode).1 is Ok
            &&& after.inode(slot) == Ok::<Inode, FsError>(inode)
            &&& after.superblock == fs.superblock
            &&& after.image.len() == fs.image.len()
            &&& forall|at: int|
                0 <= at < fs.image.len() && !(slot * 128 <= at < slot * 128 + 128)
                    ==> #[trigger] after.image[at] == fs.image[at]
            &&& forall|other: u32|
                other < fs.superblock.total_blocks ==> #[trigger] after.entry(other) == fs.entry(
                    other,
                )
            &&& fs.wf() ==> after.wf()
        }),
{
    let after = fs.put_inode(slot, inode).0;
    inode.lemma_round_trip();
    let house = slot / 32;
    assert(slot * 128 == house * 4096 + (slot % 32) * 128);
    assert(after.image == splice(fs.image, house * 4096 + (slot % 32) * 128, inode.encode()));
    lemma_write_keeps_entries(fs, house, (slot % 32) * 128, inode.encode());
    assert(span(after.image, slot * 128, 128) =~= inode.encode());
}

/// A tree stays one when a new node joins it with an unused block that now holds
/// zeros, as a pointer of the inode.
#[verifier::spinoff_prover]
#[verifier::rlimit(100)]
proof fn lemma_tree_grows_in_inode(
    inode: Inode,
    fs: FsState,
    slot: u32,
    live: Set<int>,
    new: int,
    after: FsState,
    block: u32,
)
    requires
        fs.wf(),
        tree(inode, fs, slot, live),
        is_node(new),
        !live.contains(new),
        parent(new) == -1,
        usable(fs, block),
        block != slot / 32,
        fs.entry(block) == BlockArrayEntry::Unused,
        after.entry(block) == BlockArrayEntry::Allocated,
        after.superblock.total_blocks == fs.superblock.total_blocks,
        after.block(block) == zeros(4096),
        agrees_but(fs.image, after.image, block, slot / 32, -1, 0),
        forall|other: u32|
            other != block && other < fs.superblock.total_blocks ==> #[trigger] after.entry(other)
                == fs.entry(other),
    ensures
        tree(with_field(inode, position(new), block), after, slot, live.insert(new)),
        node_block(with_field(inode, position(new), block), after.image, new) == block,
        forall|n: int|
            is_node(n) && n != new && (parent(n) == -1 || live.contains(parent(n)))
                ==> #[trigger] node_block(with_field(inode, position(new), block), after.image, n)
                == node_block(inode, fs.image, n),
{
    let changed = with_field(inode, position(new), block);
    assert forall|n: int|
        is_node(n) && n != new && (parent(n) == -1 || live.contains(parent(n)))
            implies #[trigger] node_block(changed, after.image, n) == node_block(
        inode,
        fs.image,
        n,
    ) by {
        lemma_kept_beside_inode(inode, fs, slot, live, new, after.image, block, n);
    }
    assert(node_block(changed, after.image, new) == block);
    let grown = live.insert(new);
    assert forall|n: int| grown.contains(n) implies owned(
        after,
        slot,
        #[trigger] node_block(changed, after.image, n),
    ) by {
        if n != new {
            let b = node_block(inode, fs.image, n);
            assert(owned(fs, slot, b));
            assert(after.entry(b) == fs.entry(b));
        }
    }
    assert forall|n1: int, n2: int|
        grown.contains(n1) && grown.contains(n2) && n1 != n2 implies #[trigger] node_block(
        changed,
        after.image,
        n1,
    ) != #[trigger] node_block(changed, after.image, n2) by {
        if n1 != new {
            assert(owned(fs, slot, node_block(inode, fs.image, n1)));
        }
        if n2 != new {
            assert(owned(fs, slot, node_block(inode, fs.image, n2)));
        }
    }
    assert forall|n: int|
        is_node(n) && !grown.contains(n) && (parent(n) == -1 || grown.contains(parent(n)))
            implies #[trigger] node_block(changed, after.image, n) == 0 by {
        if parent(n) == new {
            lemma_node_in_parent(changed, after.image, n);
            lemma_zero_entry(after.image, block, position(n));
        } else {
            assert(node_block(inode, fs.image, n) == 0);
        }
    }
}

/// What giving the inode a newly allocated block as one of its pointers does to
/// a tree: the node at that pointer joins the tree with the new block, which
/// holds zeros; every other node keeps its block; the inode is stored as it is
/// then; the filesystem stays well-formed; and outside the new block and the
/// inode's own no byte of a usable block has changed.
#[verifier::spinoff_prover]
#[verifier::rlimit(100)]
pub proof fn lemma_attach_in_inode(inode: Inode, fs: FsState, slot: u32, live: Set<int>, new: int)
    requires
        fs.wf(),
        home(fs, slot),
        tree(inode, fs, slot, live),
        is_node(new),
        !live.contains(new),
        parent(new) == -1,
        placed(inode, fs, slot, position(new)).2 is Ok,
    ensures
        ({
            let made = placed(inode, fs, slot, position(new));
            let after = made.0;
            let block = made.2->Ok_0;
            &&& made.1 == with_field(inode, position(new), block)
            &&& after.wf()
            &&& home(after, slot)
            &&& tree(made.1, after, slot, live.insert(new))
            &&& node_block(made.1, after.image, new) == block
            &&& after.block(block) == zeros(4096)
            &&& after.inode(slot) == Ok::<Inode, FsError>(made.1)
            &&& fs.entry(block) == BlockArrayEntry::Unused
            &&& same_identity(after.superblock, fs.superblock)
            &&& after.superblock.earliest_inode_space == fs.superblock.earliest_inode_space
            &&& agrees_but(fs.image, after.image, block, slot / 32, -1, 0)
            &&& forall|n: int|
                is_node(n) && n != new && (parent(n) == -1 || live.contains(parent(n)))
                    ==> #[trigger] node_block(made.1, after.image, n) == node_block(
                    inode,
                    fs.image,
                    n,
                )
            &&& forall|other: u32|
                other != block && other < fs.superblock.total_blocks ==> #[trigger] after.entry(other)
                    == fs.entry(other)
            &&& forall|other: u32|
                home(fs, other) && other != slot ==> home(after, other) && #[trigger] after.inode(
                    other,
                ) == fs.inode(other)
        }),
{
    let q = position(new);
    let taken = fs.allocate(false);
    lemma_allocate(fs, false);
    let block = taken.1->Ok_0;
    let changed = with_field(inode, q, block);
    let after = taken.0.put_inode(slot, changed).0;
    let house = slot / 32;
    assert(house != block);
    lemma_put_inode(taken.0, slot, changed);
    assert((slot * 128) / 4096 == house && (slot * 128 + 127) / 4096 == house);
    assert(after.block(block) =~= taken.0.block(block)) by {
        assert forall|i: int| 0 <= i < 4096 implies #[trigger] after.block(block)[i]
            == taken.0.block(block)[i] by {
            assert((block * 4096 + i) / 4096 == block);
            assert(after.image[block * 4096 + i] == taken.0.image[block * 4096 + i]);
        }
    }
    assert(agrees_but(fs.image, after.image, block, house, -1, 0)) by {
        assert forall|a: int|
            0 <= a < fs.image.len() && a / 4096 >= 2 && (a / 4096) % 16384 != 0 && a / 4096
                != block && a / 4096 != house implies #[trigger] after.image[a] == fs.image[a] by {
            assert(taken.0.image[a] == fs.image[a]);
        }
    }
    assert forall|other: u32|
        other != block && other < fs.superblock.total_blocks implies #[trigger] after.entry(other)
        == fs.entry(other) by {
        assert(after.entry(other) == taken.0.entry(other));
    }
    assert(after.entry(block) == taken.0.entry(block));
    lemma_tree_grows_in_inode(inode, fs, slot, live, new, after, block);
    assert(after.entry(house) == fs.entry(house));
    assert forall|other: u32| home(fs, other) && other != slot implies home(after, other)
        && #[trigger] after.inode(other) == fs.inode(other) by {
        lemma_allocate_keeps_allocated(fs, false, other);
        lemma_put_inode_keeps_allocated(taken.0, slot, changed, other);
        assert(after.entry(other / 32) == fs.entry(other / 32));
    }
}

/// In a tree, the inode refers to the block of each node of content that is
/// there, and to no block where the node is missing.
#[verifier::rlimit(100)]
pub proof fn lemma_resolve(inode: Inode, fs: FsState, slot: u32, live: Set<int>, i: u32)
    requires
        fs.wf(),
        tree(inode, fs, slot, live),
    ensures
        inode.resolve(fs.image, i) == if i < MAX_BLOCKS && live.contains(i as int) {
            Some(node_block(inode, fs.image, i as int))
        } else {
            None
        },
        live.contains(i as int) ==> owned(fs, slot, node_block(inode, fs.image, i as int)),
{
    let n = i as int;
    let img = fs.image;
    if i < MAX_BLOCKS {
        if live.contains(n) {
            assert(owned(fs, slot, node_block(inode, img, n)));
        }
        if i >= 10 {
            let p = parent(n);
            lemma_node_in_parent(inode, img, n);
            if i >= 1034 {
                lemma_node_in_parent(inode, img, p);
                if live.contains(doubly_node()) {
                    assert(owned(fs, slot, node_block(inode, img, doubly_node())));
                    if live.contains(p) {
                        assert(owned(fs, slot, node_block(inode, img, p)));
                    } else {
                        assert(node_block(inode, img, p) == 0);
                    }
                } else {
                    assert(node_block(inode, img, doubly_node()) == 0);
                    assert(!live.contains(p));
                }
            } else {
                if live.contains(p) {
                    assert(owned(fs, slot, node_block(inode, img, p)));
                } else {
                    assert(node_block(inode, img, p) == 0);
                }
            }
            if !live.contains(n) && live.contains(p) {
                assert(node_block(inode, img, n) == 0);
            }
        } else {
            if !live.contains(n) {
                assert(node_block(inode, img, n) == 0);
            }
        }
    } else {
        if live.contains(n) {
            assert(owned(fs, slot, node_block(inode, img, n)));
        }
    }
}

/// A usable block other than those that a change touched holds what it held.
#[verifier::rlimit(100)]
proof fn lemma_block_kept(
    a: Seq<u8>,
    b: Seq<u8>,
    fresh: u32,
    house: u32,
    table: int,
    e: int,
    block: u32,
)
    requires
        agrees_but(a, b, fresh, house, table, e),
        block >= 2,
        block % 16384 != 0,
        block * 4096 + 4096 <= a.len(),
        block != fresh,
        block != house,
        block != table,
    ensures
        span(b, block * 4096, 4096) == span(a, block * 4096, 4096),
{
    assert forall|i: int| 0 <= i < 4096 implies #[trigger] span(b, block * 4096, 4096)[i] == span(
        a,
        block * 4096,
        4096,
    )[i] by {
        assert((block * 4096 + i) / 4096 == block);
        assert(b[block * 4096 + i] == a[block * 4096 + i]);
    }
    assert(span(b, block * 4096, 4096) =~= span(a, block * 4096, 4096));
}

/// Whether the tree of an inode has grown from the nodes `live` to the nodes
/// `grown`: it is a tree in a well-formed filesystem; the nodes that were there
/// have the blocks that they had, and the blocks of content among them hold what
/// they held; the blocks of content that have joined hold zeros; where the
/// inode was stored in its slot before, it is stored there now; and the other
/// slots of inode blocks hold what they held.
pub open spec fn grew(
    inode: Inode,
    fs: FsState,
    slot: u32,
    live: Set<int>,
    inode2: Inode,
    fs2: FsState,
    grown: Set<int>,
) -> bool {
    &&& fs2.wf()
    &&& home(fs2, slot)
    &&& tree(inode2, fs2, slot, grown)
    &&& live.subset_of(grown)
    &&& same_identity(fs2.superblock, fs.superblock)
    &&& fs2.image.len() == fs.image.len()
    &&& forall|n: int|
        live.contains(n) ==> #[trigger] node_block(inode2, fs2.image, n) == node_block(
            inode,
            fs.image,
            n,
        )
    &&& forall|n: int|
        live.contains(n) && n < MAX_BLOCKS ==> fs2.block(
            #[trigger] node_block(inode2, fs2.image, n),
        ) == fs.block(node_block(inode, fs.image, n))
    &&& forall|n: int|
        grown.contains(n) && !live.contains(n) && n < MAX_BLOCKS ==> fs2.block(
            #[trigger] node_block(inode2, fs2.image, n),
        ) == zeros(4096)
    &&& fs.inode(slot) == Ok::<Inode, FsError>(inode) ==> fs2.inode(slot) == Ok::<Inode, FsError>(
        inode2,
    )
    &&& inode2.type_and_permission == inode.type_and_permission
    &&& inode2.meta == inode.meta
    &&& inode2.hardlinks == inode.hardlinks
    &&& forall|other: u32|
        home(fs, other) && other != slot ==> home(fs2, other) && #[trigger] fs2.inode(other)
            == fs.inode(other)
    &&& fs2.superblock.earliest_inode_space == fs.superblock.earliest_inode_space
}

/// A tree that has grown twice has grown.
#[verifier::rlimit(100)]
pub proof fn lemma_grew_twice(
    inode: Inode,
    fs: FsState,
    slot: u32,
    live: Set<int>,
    inode2: Inode,
    fs2: FsState,
    live2: Set<int>,
    inode3: Inode,
    fs3: FsState,
    live3: Set<int>,
)
    requires
        grew(inode, fs, slot, live, inode2, fs2, live2),
        grew(inode2, fs2, slot, live2, inode3, fs3, live3),
    ensures
        grew(inode, fs, slot, live, inode3, fs3, live3),
{
    assert forall|n: int| live.contains(n) implies #[trigger] node_block(inode3, fs3.image, n)
        == node_block(inode, fs.image, n) by {
        assert(live2.contains(n));
        assert(node_block(inode2, fs2.image, n) == node_block(inode, fs.image, n));
    }
    assert forall|n: int| live.contains(n) && n < MAX_BLOCKS implies fs3.block(
        #[trigger] node_block(inode3, fs3.image, n),
    ) == fs.block(node_block(inode, fs.image, n)) by {
        assert(live2.contains(n));
        assert(fs2.block(node_block(inode2, fs2.image, n)) == fs.block(
            node_block(inode, fs.image, n),
        ));
    }
    assert forall|n: int| live3.contains(n) && !live.contains(n) && n < MAX_BLOCKS implies fs3.block(
        #[trigger] node_block(inode3, fs3.image, n),
    ) == zeros(4096) by {
        if live2.contains(n) {
            assert(fs2.block(node_block(inode2, fs2.image, n)) == zeros(4096));
            assert(fs3.block(node_block(inode3, fs3.image, n)) == fs2.block(
                node_block(inode2, fs2.image, n),
            ));
        }
    }
}

/// A tree that has not changed has grown, by nothing.
#[verifier::rlimit(100)]
pub proof fn lemma_grew_not(inode: Inode, fs: FsState, slot: u32, live: Set<int>)
    requires
        fs.wf(),
        home(fs, slot),
        tree(inode, fs, slot, live),
    ensures
        grew(inode, fs, slot, live, inode, fs, live),
{
}

/// A slot holds the same in two images in which its block holds the same.
#[verifier::rlimit(100)]
pub proof fn lemma_slot_of_block(a: Seq<u8>, b: Seq<u8>, slot: u32)
    requires
        span(a, (slot / 32) * 4096, 4096) == span(b, (slot / 32) * 4096, 4096),
    ensures
        span(a, slot * 128, 128) == span(b, slot * 128, 128),
{
    let house = slot / 32;
    assert forall|i: int| 0 <= i < 128 implies #[trigger] span(a, slot * 128, 128)[i] == span(
        b,
        slot * 128,
        128,
    )[i] by {
        assert(slot * 128 + i == house * 4096 + ((slot % 32) * 128 + i));
        assert(span(a, house * 4096, 4096)[(slot % 32) * 128 + i] == span(b, house * 4096, 4096)[(
        slot % 32) * 128 + i]);
    }
    assert(span(a, slot * 128, 128) =~= span(b, slot * 128, 128));
}

/// Giving a pointer block a newly allocated block as an entry makes the tree
/// grow by the node at that entry.
#[verifier::spinoff_prover]
#[verifier::rlimit(100)]
pub proof fn lemma_grows_in_table(inode: Inode, fs: FsState, slot: u32, live: Set<int>, new: int)
    requires
        fs.wf(),
        home(fs, slot),
        tree(inode, fs, slot, live),
        is_node(new),
        !live.contains(new),
        live.contains(parent(new)),
        Inode::extend_table(
            fs,
            node_block(inode, fs.image, parent(new)),
            position(new),
        ).1 is Ok,
    ensures
        grew(
            inode,
            fs,
            slot,
            live,
            inode,
            Inode::extend_table(fs, node_block(inode, fs.image, parent(new)), position(new)).0,
            live.insert(new),
        ),
        node_block(
            inode,
            Inode::extend_table(
                fs,
                node_block(inode, fs.image, parent(new)),
                position(new),
            ).0.image,
            new,
        ) == Inode::extend_table(
            fs,
            node_block(inode, fs.image, parent(new)),
            position(new),
        ).1->Ok_0,
{
    let table = node_block(inode, fs.image, parent(new));
    let made = Inode::extend_table(fs, table, position(new));
    let after = made.0;
    let block = made.1->Ok_0;
    lemma_attach_in_table(inode, fs, slot, live, new);
    assert(owned(fs, slot, table));
    assert forall|n: int| live.contains(n) && n < MAX_BLOCKS implies after.block(
        #[trigger] node_block(inode, after.image, n),
    ) == fs.block(node_block(inode, fs.image, n)) by {
        let b = node_block(inode, fs.image, n);
        assert(owned(fs, slot, b));
        assert(n != parent(new));
        lemma_block_kept(fs.image, after.image, block, block, table as int, position(new), b);
    }
    assert forall|other: u32| home(fs, other) && other != slot implies home(after, other)
        && #[trigger] after.inode(other) == fs.inode(other) by {
        let h = other / 32;
        assert(h != table);
        assert(after.entry(h) == fs.entry(h));
        lemma_block_kept(fs.image, after.image, block, block, table as int, position(new), h);
        lemma_slot_of_block(fs.image, after.image, other);
    }
    let house = slot / 32;
    assert(house != table);
    lemma_block_kept(fs.image, after.image, block, block, table as int, position(new), house);
    assert(span(after.image, slot * 128, 128) =~= span(fs.image, slot * 128, 128)) by {
        assert forall|i: int| 0 <= i < 128 implies #[trigger] span(after.image, slot * 128, 128)[i]
            == span(fs.image, slot * 128, 128)[i] by {
            assert(slot * 128 + i == house * 4096 + ((slot % 32) * 128 + i));
            assert(span(after.image, house * 4096, 4096)[(slot % 32) * 128 + i] == span(
                fs.image,
                house * 4096,
                4096,
            )[(slot % 32) * 128 + i]);
        }
    }
}

/// Giving the inode a newly allocated block as one of its pointers makes the
/// tree grow by the node at that pointer.
#[verifier::spinoff_prover]
#[verifier::rlimit(100)]
pub proof fn lemma_grows_in_inode(inode: Inode, fs: FsState, slot: u32, live: Set<int>, new: int)
    requires
        fs.wf(),
        home(fs, slot),
        tree(inode, fs, slot, live),
        is_node(new),
        !live.contains(new),
        parent(new) == -1,
        placed(inode, fs, slot, position(new)).2 is Ok,
    ensures
        grew(
            inode,
            fs,
            slot,
            live,
            placed(inode, fs, slot, position(new)).1,
            placed(inode, fs, slot, position(new)).0,
            live.insert(new),
        ),
        placed(inode, fs, slot, position(new)).1 == with_field(
            inode,
            position(new),
            placed(inode, fs, slot, position(new)).2->Ok_0,
        ),
{
    let made = placed(inode, fs, slot, position(new));
    let after = made.0;
    let block = made.2->Ok_0;
    lemma_attach_in_inode(inode, fs, slot, live, new);
    assert forall|n: int| live.contains(n) && n < MAX_BLOCKS implies after.block(
        #[trigger] node_block(made.1, after.image, n),
    ) == fs.block(node_block(inode, fs.image, n)) by {
        let b = node_block(inode, fs.image, n);
        assert(owned(fs, slot, b));
        lemma_block_kept(fs.image, after.image, block, slot / 32, -1, 0, b);
    }
}

/// In a tree with `k` blocks of content, the first index at which the inode
/// refers to no block is `k`.
#[verifier::rlimit(100)]
pub proof fn lemma_first_unresolved(inode: Inode, fs: FsState, slot: u32, k: int, from: u32)
    requires
        fs.wf(),
        tree(inode, fs, slot, nodes_for(k)),
        0 <= from <= k <= MAX_BLOCKS,
    ensures
        inode.first_unresolved(fs.image, from) == k,
    decreases k - from,
{
    lemma_resolve(inode, fs, slot, nodes_for(k), from);
    if from < k {
        lemma_first_unresolved(inode, fs, slot, k, (from + 1) as u32);
    }
}

/// Giving the inode a block as a direct pointer, in the terms of a tree.
#[verifier::rlimit(100)]
pub proof fn lemma_extend_direct_is_placed(inode: Inode, fs: FsState, slot: u32, index: u32)
    requires
        index < 10,
    ensures
        inode.extend_direct(fs, slot, index).0 == placed(inode, fs, slot, index as int).0,
        inode.extend_direct(fs, slot, index).1 == placed(inode, fs, slot, index as int).1,
        inode.extend_direct(fs, slot, index).2 is Ok <==> placed(
            inode,
            fs,
            slot,
            index as int,
        ).2 is Ok,
        inode.extend_direct(fs, slot, index).2 is Ok ==> inode.extend_direct(fs, slot, index).2
            == Ok::<u32, FsError>(index),
{
    reveal(Inode::extend_direct);
}

/// Giving the inode a singly indirect block, in the terms of a tree.
#[verifier::rlimit(100)]
pub proof fn lemma_singly_is_placed(inode: Inode, fs: FsState, slot: u32)
    requires
        inode.singly_indirect_block_pointer == 0,
    ensures
        inode.with_singly_block(fs, slot) == placed(inode, fs, slot, 10),
{
    reveal(Inode::with_singly_block);
}

/// Giving the inode a doubly indirect block, in the terms of a tree.
#[verifier::rlimit(100)]
pub proof fn lemma_doubly_is_placed(inode: Inode, fs: FsState, slot: u32)
    requires
        inode.doubly_indirect_block_pointer == 0,
    ensures
        inode.with_doubly_block(fs, slot) == placed(inode, fs, slot, 11),
{
    reveal(Inode::with_doubly_block);
}

/// What `get_next_free_block` does to a tree with `k` blocks of content, where
/// it succeeds: the tree grows to one with `k + 1` blocks, and the result is `k`.
#[verifier::rlimit(100)]
pub proof fn lemma_extend(inode: Inode, fs: FsState, slot: u32, k: int)
    requires
        fs.wf(),
        home(fs, slot),
        tree(inode, fs, slot, nodes_for(k)),
        0 <= k,
        inode.extend(fs, slot).2 is Ok,
    ensures
        k < MAX_BLOCKS,
        inode.extend(fs, slot).2 == Ok::<u32, FsError>(k as u32),
        grew(
            inode,
            fs,
            slot,
            nodes_for(k),
            inode.extend(fs, slot).1,
            inode.extend(fs, slot).0,
            nodes_for(k + 1),
        ),
{
    if k >= MAX_BLOCKS {
        // the tree is full, and the operation fails
        assert(nodes_for(k) =~= nodes_for(MAX_BLOCKS as int));
        lemma_first_unresolved(inode, fs, slot, MAX_BLOCKS as int, 0);
        assert(false);
    }
    lemma_first_unresolved(inode, fs, slot, k, 0);
    let live = nodes_for(k);
    if k < 10 {
        lemma_extend_direct_is_placed(inode, fs, slot, k as u32);
        lemma_grows_in_inode(inode, fs, slot, live, k);
        assert(live.insert(k) =~= nodes_for(k + 1));
    } else if k < 1034 {
        lemma_extend_singly(inode, fs, slot, k);
    } else if k < MAX_BLOCKS {
        lemma_extend_doubly(inode, fs, slot, k);
    }
}

/// The growth of a tree by a block of content that the singly indirect block
/// names.
#[verifier::rlimit(100)]
proof fn lemma_extend_singly(inode: Inode, fs: FsState, slot: u32, k: int)
    requires
        fs.wf(),
        home(fs, slot),
        tree(inode, fs, slot, nodes_for(k)),
        10 <= k < 1034,
        inode.first_unresolved(fs.image, 0) == k,
        inode.extend(fs, slot).2 is Ok,
    ensures
        inode.extend(fs, slot).2 == Ok::<u32, FsError>(k as u32),
        grew(
            inode,
            fs,
            slot,
            nodes_for(k),
            inode.extend(fs, slot).1,
            inode.extend(fs, slot).0,
            nodes_for(k + 1),
        ),
{
    let live = nodes_for(k);
    let s = inode.with_singly_block(fs, slot);
    let with_table = if k == 10 {
        live.insert(singly_node())
    } else {
        live
    };
    if k == 10 {
        assert(node_block(inode, fs.image, singly_node()) == 0);
        lemma_singly_is_placed(inode, fs, slot);
        lemma_grows_in_inode(inode, fs, slot, live, singly_node());
    } else {
        assert(live.contains(singly_node()));
        assert(owned(fs, slot, node_block(inode, fs.image, singly_node())));
        reveal(Inode::with_singly_block);
        lemma_grew_not(inode, fs, slot, live);
    }
    assert(grew(inode, fs, slot, live, s.1, s.0, with_table));
    assert(with_table.contains(singly_node()));
    assert(s.2 == Ok::<u32, FsError>(node_block(s.1, s.0.image, singly_node())));
    assert(parent(k) == singly_node() && position(k) == k - 10);
    lemma_grows_in_table(s.1, s.0, slot, with_table, k);
    let t = Inode::extend_table(s.0, s.2->Ok_0, k - 10);
    assert(with_table.insert(k) =~= nodes_for(k + 1));
    lemma_grew_twice(inode, fs, slot, live, s.1, s.0, with_table, s.1, t.0, nodes_for(k + 1));
}

/// The growth of a tree by a block of content that the doubly indirect block
/// leads to.
#[verifier::spinoff_prover]
#[verifier::rlimit(100)]
proof fn lemma_extend_doubly(inode: Inode, fs: FsState, slot: u32, k: int)
    requires
        fs.wf(),
        home(fs, slot),
        tree(inode, fs, slot, nodes_for(k)),
        1034 <= k < MAX_BLOCKS,
        inode.first_unresolved(fs.image, 0) == k,
        inode.extend(fs, slot).2 is Ok,
    ensures
        inode.extend(fs, slot).2 == Ok::<u32, FsError>(k as u32),
        grew(
            inode,
            fs,
            slot,
            nodes_for(k),
            inode.extend(fs, slot).1,
            inode.extend(fs, slot).0,
            nodes_for(k + 1),
        ),
{
    let live = nodes_for(k);
    let j = (k - 10) / 1024;
    let e = (k - 10) % 1024;
    let d = inode.with_doubly_block(fs, slot);
    let with_top = if k == 1034 {
        live.insert(doubly_node())
    } else {
        live
    };
    if k == 1034 {
        assert(node_block(inode, fs.image, doubly_node()) == 0);
        lemma_doubly_is_placed(inode, fs, slot);
        lemma_grows_in_inode(inode, fs, slot, live, doubly_node());
    } else {
        assert(live.contains(doubly_node()));
        assert(owned(fs, slot, node_block(inode, fs.image, doubly_node())));
        reveal(Inode::with_doubly_block);
        lemma_grew_not(inode, fs, slot, live);
    }
    assert(grew(inode, fs, slot, live, d.1, d.0, with_top));
    assert(with_top.contains(doubly_node()));
    let doubly = node_block(d.1, d.0.image, doubly_node());
    assert(d.2 == Ok::<u32, FsError>(doubly));
    assert(owned(d.0, slot, doubly));
    // the singly indirect block that entry `j` names
    let inner = inner_node(j);
    assert(parent(inner) == doubly_node() && position(inner) == j);
    assert(is_node(inner));
    let s = Inode::with_inner_block(d.0, doubly, j);
    let with_inner = if e == 0 {
        with_top.insert(inner)
    } else {
        with_top
    };
    reveal(Inode::with_inner_block);
    lemma_node_in_parent(d.1, d.0.image, inner);
    if e == 0 {
        assert(!with_top.contains(inner));
        assert(node_block(d.1, d.0.image, inner) == 0);
        lemma_grows_in_table(d.1, d.0, slot, with_top, inner);
    } else {
        assert(live.contains(inner));
        assert(with_top.contains(inner));
        assert(owned(d.0, slot, node_block(d.1, d.0.image, inner)));
        lemma_grew_not(d.1, d.0, slot, with_top);
    }
    assert(grew(d.1, d.0, slot, with_top, d.1, s.0, with_inner));
    assert(with_inner.contains(inner));
    assert(s.1 == Ok::<u32, FsError>(node_block(d.1, s.0.image, inner)));
    assert(parent(k) == inner && position(k) == e);
    lemma_grows_in_table(d.1, s.0, slot, with_inner, k);
    let t = Inode::extend_table(s.0, s.1->Ok_0, e);
    assert(with_inner.insert(k) =~= nodes_for(k + 1));
    lemma_grew_twice(inode, fs, slot, live, d.1, d.0, with_top, d.1, s.0, with_inner);
    lemma_grew_twice(inode, fs, slot, live, d.1, s.0, with_inner, d.1, t.0, nodes_for(k + 1));
}

/// Whether the pointer blocks of a tree hold in `b` what they hold in `a`, and the
/// bitmaps of `b` still say of every block of the tree that it is allocated.
pub open spec fn pointers_kept(inode: Inode, a: FsState, b: FsState, live: Set<int>) -> bool {
    &&& b.image.len() == a.image.len()
    &&& b.superblock.total_blocks == a.superblock.total_blocks
    &&& forall|n: int|
        live.contains(n) ==> b.entry(#[trigger] node_block(inode, a.image, n))
            == BlockArrayEntry::Allocated
    &&& forall|n: int|
        live.contains(n) && n >= MAX_BLOCKS ==> b.block(#[trigger] node_block(inode, a.image, n))
            == a.block(node_block(inode, a.image, n))
}

/// An entry of a block is the same in two images in which the block holds the
/// same.
#[verifier::rlimit(100)]
pub proof fn lemma_entry_of_same_block(a: Seq<u8>, b: Seq<u8>, block: u32, e: int)
    requires
        0 <= e < 1024,
        span(a, block * 4096, 4096) == span(b, block * 4096, 4096),
    ensures
        tree_entry(a, block, e) == tree_entry(b, block, e),
{
    let sa = span(a, block * 4096, 4096);
    let sb = span(b, block * 4096, 4096);
    let at = entry_addr(block, e);
    assert(a[at] == sa[4 * e] && a[at + 1] == sa[4 * e + 1] && a[at + 2] == sa[4 * e + 2] && a[at
        + 3] == sa[4 * e + 3]);
    assert(b[at] == sb[4 * e] && b[at + 1] == sb[4 * e + 1] && b[at + 2] == sb[4 * e + 2] && b[at
        + 3] == sb[4 * e + 3]);
}

/// A tree stays the tree that it is while its pointer blocks hold what they
/// held: every node keeps its block.
#[verifier::rlimit(100)]
pub proof fn lemma_tree_kept(inode: Inode, a: FsState, b: FsState, slot: u32, live: Set<int>)
    requires
        tree(inode, a, slot, live),
        pointers_kept(inode, a, b, live),
    ensures
        tree(inode, b, slot, live),
        forall|n: int|
            is_node(n) && (parent(n) == -1 || live.contains(parent(n))) ==> #[trigger] node_block(
                inode,
                b.image,
                n,
            ) == node_block(inode, a.image, n),
{
    assert forall|n: int|
        is_node(n) && (parent(n) == -1 || live.contains(parent(n))) implies #[trigger] node_block(
        inode,
        b.image,
        n,
    ) == node_block(inode, a.image, n) by {
        let p = parent(n);
        if p != -1 {
            lemma_node_in_parent(inode, a.image, n);
            lemma_node_in_parent(inode, b.image, n);
            if parent(p) != -1 {
                lemma_node_in_parent(inode, a.image, p);
                lemma_node_in_parent(inode, b.image, p);
                assert(live.contains(parent(p)));
                let d = node_block(inode, a.image, parent(p));
                assert(b.block(d) == a.block(d));
                lemma_entry_of_same_block(a.image, b.image, d, position(p));
            }
            let t = node_block(inode, a.image, p);
            assert(b.block(t) == a.block(t));
            lemma_entry_of_same_block(a.image, b.image, t, position(n));
        }
    }
    assert forall|n: int| live.contains(n) implies owned(
        b,
        slot,
        #[trigger] node_block(inode, b.image, n),
    ) by {
        assert(owned(a, slot, node_block(inode, a.image, n)));
    }
}

/// What writing into a block of content does to a tree: the tree stays as it
/// is; the block holds what was written, where it was written; every other block
/// of the tree holds what it held; the inode's slot holds what it held; and the
/// filesystem stays well-formed.
#[verifier::spinoff_prover]
#[verifier::rlimit(100)]
pub proof fn lemma_write_content(
    inode: Inode,
    fs: FsState,
    slot: u32,
    live: Set<int>,
    i: int,
    off: int,
    bytes: Seq<u8>,
)
    requires
        fs.wf(),
        home(fs, slot),
        tree(inode, fs, slot, live),
        live.contains(i),
        0 <= i < MAX_BLOCKS,
        0 <= off,
        off + bytes.len() <= 4096,
    ensures
        ({
            let block = node_block(inode, fs.image, i);
            let after = FsState {
                image: splice(fs.image, block * 4096 + off, bytes),
                superblock: fs.superblock,
            };
            &&& owned(fs, slot, block)
            &&& after.wf()
            &&& home(after, slot)
            &&& tree(inode, after, slot, live)
            &&& after.block(block) == splice(fs.block(block), off, bytes)
            &&& after.inode(slot) == fs.inode(slot)
            &&& forall|other: u32|
                home(fs, other) ==> home(after, other) && #[trigger] after.inode(other) == fs.inode(
                    other,
                )
            &&& forall|n: int|
                live.contains(n) ==> #[trigger] node_block(inode, after.image, n) == node_block(
                    inode,
                    fs.image,
                    n,
                )
            &&& forall|n: int|
                live.contains(n) && n != i ==> after.block(
                    #[trigger] node_block(inode, after.image, n),
                ) == fs.block(node_block(inode, fs.image, n))
        }),
{
    let block = node_block(inode, fs.image, i);
    let after = FsState {
        image: splice(fs.image, block * 4096 + off, bytes),
        superblock: fs.superblock,
    };
    assert(owned(fs, slot, block));
    lemma_write_keeps_entries(fs, block, off, bytes);
    assert forall|n: int| live.contains(n) && n != i implies after.block(
        node_block(inode, fs.image, n),
    ) == fs.block(#[trigger] node_block(inode, fs.image, n)) by {
        let b = node_block(inode, fs.image, n);
        assert(owned(fs, slot, b));
        assert(b != block);
        lemma_other_block_kept(fs.image, block, off, bytes, b);
    }
    assert forall|n: int| live.contains(n) implies after.entry(
        #[trigger] node_block(inode, fs.image, n),
    ) == BlockArrayEntry::Allocated by {
        assert(owned(fs, slot, node_block(inode, fs.image, n)));
    }
    assert(pointers_kept(inode, fs, after, live));
    lemma_tree_kept(inode, fs, after, slot, live);
    assert(after.block(block) =~= splice(fs.block(block), off, bytes));
    assert forall|other: u32| home(fs, other) implies home(after, other) && #[trigger] after.inode(
        other,
    ) == fs.inode(other) by {
        let h = other / 32;
        assert(after.entry(h) == fs.entry(h));
        lemma_other_block_kept(fs.image, block, off, bytes, h);
        lemma_slot_of_block(fs.image, after.image, other);
    }
    lemma_other_block_kept(fs.image, block, off, bytes, slot / 32);
    let house = slot / 32;
    assert(span(after.image, slot * 128, 128) =~= span(fs.image, slot * 128, 128)) by {
        assert forall|j: int| 0 <= j < 128 implies #[trigger] span(after.image, slot * 128, 128)[j]
            == span(fs.image, slot * 128, 128)[j] by {
            assert(slot * 128 + j == house * 4096 + ((slot % 32) * 128 + j));
            assert(span(after.image, house * 4096, 4096)[(slot % 32) * 128 + j] == span(
                fs.image,
                house * 4096,
                4096,
            )[(slot % 32) * 128 + j]);
        }
    }
    assert(after.entry(house) == fs.entry(house));
}

/// Writing within one block leaves what every other block holds.
#[verifier::rlimit(100)]
proof fn lemma_other_block_kept(img: Seq<u8>, block: u32, off: int, bytes: Seq<u8>, other: u32)
    requires
        0 <= off,
        off + bytes.len() <= 4096,
        other != block,
        other * 4096 + 4096 <= img.len(),
    ensures
        span(splice(img, block * 4096 + off, bytes), other * 4096, 4096) == span(
            img,
            other * 4096,
            4096,
        ),
{
    let out = splice(img, block * 4096 + off, bytes);
    assert forall|j: int| 0 <= j < 4096 implies #[trigger] span(out, other * 4096, 4096)[j] == span(
        img,
        other * 4096,
        4096,
    )[j] by {
        assert((other * 4096 + j) / 4096 == other);
        if block * 4096 + off <= other * 4096 + j < block * 4096 + off + bytes.len() {
            assert((other * 4096 + j) / 4096 == block);
        }
        assert(out[other * 4096 + j] == img[other * 4096 + j]);
    }
    assert(span(out, other * 4096, 4096) =~= span(img, other * 4096, 4096));
}

/// Whether every block that the bitmaps of `a` say is allocated holds in `b` what
/// it holds in `a`, and is allocated in `b` too.
pub open spec fn allocated_kept(a: FsState, b: FsState) -> bool {
    &&& b.image.len() == a.image.len()
    &&& b.superblock.total_blocks == a.superblock.total_blocks
    &&& forall|block: u32|
        usable(a, block) && a.entry(block) == BlockArrayEntry::Allocated ==> #[trigger] b.entry(
            block,
        ) == BlockArrayEntry::Allocated && b.block(block) == a.block(block)
}

/// A tree stays the tree that it is, with all that its blocks hold, while the
/// allocated blocks hold what they held.
#[verifier::rlimit(100)]
pub proof fn lemma_tree_of_kept_blocks(
    inode: Inode,
    a: FsState,
    b: FsState,
    slot: u32,
    live: Set<int>,
)
    requires
        tree(inode, a, slot, live),
        allocated_kept(a, b),
    ensures
        tree(inode, b, slot, live),
        forall|n: int|
            live.contains(n) ==> #[trigger] node_block(inode, b.image, n) == node_block(
                inode,
                a.image,
                n,
            ) && b.block(node_block(inode, a.image, n)) == a.block(node_block(inode, a.image, n)),
{
    assert forall|n: int| live.contains(n) implies b.entry(
        #[trigger] node_block(inode, a.image, n),
    ) == BlockArrayEntry::Allocated && b.block(node_block(inode, a.image, n)) == a.block(
        node_block(inode, a.image, n),
    ) by {
        assert(owned(a, slot, node_block(inode, a.image, n)));
    }
    assert(pointers_kept(inode, a, b, live));
    lemma_tree_kept(inode, a, b, slot, live);
}

/// Storing an inode in a slot of an inode block leaves the allocated blocks as
/// they are, and every other slot.
#[verifier::rlimit(100)]
pub proof fn lemma_put_inode_keeps_allocated(fs: FsState, slot: u32, inode: Inode, other: u32)
    requires
        fs.wf(),
        home(fs, slot),
    ensures
        allocated_kept(fs, fs.put_inode(slot, inode).0),
        fs.put_inode(slot, inode).0.wf(),
        fs.put_inode(slot, inode).1 is Ok,
        fs.put_inode(slot, inode).0.inode(slot) == Ok::<Inode, FsError>(inode),
        fs.put_inode(slot, inode).0.superblock == fs.superblock,
        other != slot ==> fs.put_inode(slot, inode).0.inode(other) == fs.inode(other),
        forall|block: u32|
            block < fs.superblock.total_blocks ==> #[trigger] fs.put_inode(slot, inode).0.entry(
                block,
            ) == fs.entry(block),
{
    let after = fs.put_inode(slot, inode).0;
    lemma_put_inode(fs, slot, inode);
    let house = slot / 32;
    assert((slot * 128) / 4096 == house && (slot * 128 + 127) / 4096 == house);
    assert forall|block: u32|
        usable(fs, block) && fs.entry(block) == BlockArrayEntry::Allocated implies #[trigger] after.entry(
        block,
    ) == BlockArrayEntry::Allocated && after.block(block) == fs.block(block) by {
        assert forall|j: int| 0 <= j < 4096 implies #[trigger] after.block(block)[j] == fs.block(
            block,
        )[j] by {
            assert((block * 4096 + j) / 4096 == block);
            assert(after.image[block * 4096 + j] == fs.image[block * 4096 + j]);
        }
        assert(after.block(block) =~= fs.block(block));
    }
    if other != slot {
        if other * 128 + 128 <= fs.image.len() {
            assert(span(after.image, other * 128, 128) =~= span(fs.image, other * 128, 128));
        }
    }
}

/// An allocation leaves the allocated blocks as they are, and every slot of an
/// inode block.
#[verifier::rlimit(100)]
pub proof fn lemma_allocate_keeps_allocated(fs: FsState, for_inodes: bool, other: u32)
    requires
        fs.wf(),
        fs.allocate(for_inodes).1 is Ok,
    ensures
        allocated_kept(fs, fs.allocate(for_inodes).0),
        home(fs, other) ==> home(fs.allocate(for_inodes).0, other) && fs.allocate(
            for_inodes,
        ).0.inode(other) == fs.inode(other),
{
    let after = fs.allocate(for_inodes).0;
    let taken = fs.allocate(for_inodes).1->Ok_0;
    lemma_allocate(fs, for_inodes);
    assert forall|block: u32|
        usable(fs, block) && fs.entry(block) == BlockArrayEntry::Allocated implies #[trigger] after.entry(
        block,
    ) == BlockArrayEntry::Allocated && after.block(block) == fs.block(block) by {
        assert forall|j: int| 0 <= j < 4096 implies #[trigger] after.block(block)[j] == fs.block(
            block,
        )[j] by {
            assert((block * 4096 + j) / 4096 == block);
            assert(after.image[block * 4096 + j] == fs.image[block * 4096 + j]);
        }
        assert(after.block(block) =~= fs.block(block));
    }
    if home(fs, other) {
        let house = other / 32;
        assert(after.entry(house) == fs.entry(house));
        assert(span(after.image, other * 128, 128) =~= span(fs.image, other * 128, 128)) by {
            assert forall|j: int| 0 <= j < 128 implies #[trigger] span(after.image, other * 128, 128)[j]
                == span(fs.image, other * 128, 128)[j] by {
                assert((other * 128 + j) / 4096 == house);
                assert(after.image[other * 128 + j] == fs.image[other * 128 + j]);
            }
        }
    }
}

} // verus!
