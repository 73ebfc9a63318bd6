//! What holds of a directory on a well-formed filesystem: the entries that were
//! written are the entries that a walk yields, in their order.

use crate::allocation::{lemma_allocate, usable};
use crate::codec::{le_bytes, le_u32, lemma_le_u32_round_trip, span, splice, zeros};
use crate::directory::{listing, position_after, stored_entry, DirectoryIterator, Entry};
use crate::disk::transfer_len;
use crate::allocation::lemma_allocate_succeeds;
use crate::fs::{created, root_directory, FsError, FsState};
use crate::growth::{can_take, lemma_extend_succeeds, tree_size};
use crate::tree::lemma_put_inode;
use crate::inode::{stored_header, Inode, InodeType, MAX_BLOCKS};
use crate::tree::lemma_allocate_keeps_allocated;
use crate::tree::{
    allocated_kept, grew, home, lemma_extend,
    lemma_put_inode_keeps_allocated, lemma_resolve, lemma_tree_of_kept_blocks, lemma_write_content,
    node_block, nodes_for, owned, tree,
};
use vstd::prelude::*;

verus! {

/// Whether the superblock's hint for the next inode, where it gives one, names
/// the first slot of an inode block.
pub open spec fn hint_ok(fs: FsState) -> bool {
    fs.superblock.earliest_inode_space >= 64 ==> fs.superblock.earliest_inode_space % 32 == 0
        && home(fs, fs.superblock.earliest_inode_space)
}

/// Whether `e` is an entry that names an inode: it has an inode, and a name of 1
/// to 254 bytes.
pub open spec fn names(e: Entry) -> bool {
    &&& e.inode != 0
    &&& 0 < e.name.len() < 255
}

/// Whether the directory holds nothing from offset `off` of the block with index
/// `blk` on: that block is the last one and holds zeros from there on, or the
/// directory has no such block and the offset is zero.
pub open spec fn blank(dir: Inode, fs: FsState, k: int, blk: u32, off: u32) -> bool {
    if blk == k {
        off == 0
    } else {
        &&& blk + 1 == k
        &&& off <= 3836
        &&& forall|t: int|
            off <= t < 4096 ==> #[trigger] fs.block(node_block(dir, fs.image, blk as int))[t] == 0
    }
}

/// Whether the directory, whose tree has `k` blocks of content, holds the
/// entries `es` and nothing else from offset `off` of the block with index `blk`
/// on: each entry names an inode and is stored where the one before it ends.
pub open spec fn holds(dir: Inode, fs: FsState, k: int, blk: u32, off: u32, es: Seq<Entry>) -> bool
    decreases es.len(),
{
    if es.len() == 0 {
        blank(dir, fs, k, blk, off)
    } else {
        let next = position_after(blk, off, 5 + es[0].name.len() as int);
        &&& names(es[0])
        &&& blk < k
        &&& off <= 3836
        &&& fs.block(node_block(dir, fs.image, blk as int)).subrange(
            off as int,
            off + 5 + es[0].name.len(),
        ) == es[0].encode()
        &&& holds(dir, fs, k, next.0, next.1, es.drop_first())
    }
}

/// What a read within one block of content delivers in a tree: the bytes of that
/// block, where the tree has it, and nothing where it has not.
#[verifier::rlimit(100)]
pub proof fn lemma_content_in_block(
    inode: Inode,
    fs: FsState,
    slot: u32,
    k: int,
    blk: u32,
    off: int,
    len: nat,
)
    requires
        fs.wf(),
        tree(inode, fs, slot, nodes_for(k)),
        0 <= k <= MAX_BLOCKS,
        blk < MAX_BLOCKS,
        0 <= off,
        off + len <= 4096,
        off < 4096,
    ensures
        inode.content(fs.image, (blk * 4096 + off) as u64, len) == if blk < k {
            fs.block(node_block(inode, fs.image, blk as int)).subrange(off, off + len)
        } else {
            Seq::<u8>::empty()
        },
{
    let img = fs.image;
    let addr = (blk * 4096 + off) as u64;
    lemma_resolve(inode, fs, slot, nodes_for(k), blk);
    assert(addr % 4096 == off && addr / 4096 == blk);
    if len > 0 {
        if blk < k {
            assert(nodes_for(k).contains(blk as int));
            let block = node_block(inode, img, blk as int);
            assert(owned(fs, slot, block));
            assert(transfer_len(img.len(), (block * 4096 + off) as u64, len) == len);
            let got = span(img, block * 4096 + addr % 4096, len);
            assert(inode.part(img, addr, len) == Ok::<Seq<u8>, FsError>(got));
            assert(inode.content(img, (addr + len) as u64, 0) =~= Seq::<u8>::empty());
            assert(got + Seq::<u8>::empty() =~= got);
            assert(got =~= fs.block(block).subrange(off, off + len));
        } else {
            assert(!nodes_for(k).contains(blk as int));
        }
    } else {
        if blk < k {
            assert(fs.block(node_block(inode, fs.image, blk as int)).subrange(off, off + len)
                =~= Seq::<u8>::empty());
        }
    }
}

/// An entry that is stored in a block of content at an offset is the entry that
/// a walk reads there.
#[verifier::spinoff_prover]
#[verifier::rlimit(100)]
proof fn lemma_entry_is_walked(
    dir: Inode,
    fs: FsState,
    slot: u32,
    k: int,
    blk: u32,
    off: u32,
    e: Entry,
)
    requires
        fs.wf(),
        tree(dir, fs, slot, nodes_for(k)),
        blk < k <= MAX_BLOCKS,
        off <= 3836,
        e.name.len() <= 255,
        fs.block(node_block(dir, fs.image, blk as int)).subrange(
            off as int,
            off + 5 + e.name.len(),
        ) == e.encode(),
    ensures
        stored_entry(dir, fs.image, (blk * 4096 + off) as u64) == Ok::<Entry, FsError>(e),
{
    let img = fs.image;
    let block = node_block(dir, img, blk as int);
    let held = fs.block(block);
    let n = e.name.len();
    let enc = e.encode();
    let piece = held.subrange(off as int, off + 5 + n);
    let addr = (blk * 4096 + off) as u64;
    lemma_content_in_block(dir, fs, slot, k, blk, off as int, 1);
    lemma_content_in_block(dir, fs, slot, k, blk, off + 1, 4);
    lemma_content_in_block(dir, fs, slot, k, blk, off + 5, n);
    let c1 = dir.content(img, addr, 1);
    let c4 = dir.content(img, (addr + 1) as u64, 4);
    assert(c1[0] == piece[0]);
    assert(enc[0] == n as u8);
    assert(c1[0] as nat == n);
    let cn = dir.content(img, (addr + 5) as u64, n);
    assert(cn =~= e.name) by {
        assert forall|t: int| 0 <= t < n implies cn[t] == e.name[t] by {
            assert(cn[t] == piece[5 + t]);
            assert(enc[5 + t] == e.name[t]);
        }
    }
    assert(c4 =~= le_bytes(e.inode as int, 4)) by {
        assert forall|t: int| 0 <= t < 4 implies c4[t] == le_bytes(e.inode as int, 4)[t] by {
            assert(c4[t] == piece[1 + t]);
            assert(enc[1 + t] == le_bytes(e.inode as int, 4)[t]);
        }
    }
    assert(c4.subrange(0, 4) =~= c4);
    lemma_le_u32_round_trip(c4, 0, e.inode);
}

/// An entry that is stored in a block of content at an offset is the entry whose
/// head a scan reads there.
#[verifier::spinoff_prover]
#[verifier::rlimit(100)]
proof fn lemma_entry_is_scanned(
    dir: Inode,
    fs: FsState,
    slot: u32,
    k: int,
    blk: u32,
    off: u32,
    e: Entry,
)
    requires
        fs.wf(),
        tree(dir, fs, slot, nodes_for(k)),
        blk < k <= MAX_BLOCKS,
        off <= 3836,
        e.name.len() <= 255,
        fs.block(node_block(dir, fs.image, blk as int)).subrange(
            off as int,
            off + 5 + e.name.len(),
        ) == e.encode(),
    ensures
        stored_header(fs.image, node_block(dir, fs.image, blk as int) * 4096 + off) == Ok::<
            (u8, u32),
            FsError,
        >((e.name.len() as u8, e.inode)),
        dir.resolve(fs.image, blk) == Some(node_block(dir, fs.image, blk as int)),
{
    let img = fs.image;
    let block = node_block(dir, img, blk as int);
    let held = fs.block(block);
    let n = e.name.len();
    let enc = e.encode();
    let piece = held.subrange(off as int, off + 5 + n);
    lemma_resolve(dir, fs, slot, nodes_for(k), blk);
    assert(nodes_for(k).contains(blk as int));
    assert(owned(fs, slot, block));
    let at = block * 4096 + off;
    assert(img[at] == held[off as int]);
    assert(held[off as int] == piece[0]);
    assert(enc[0] == n as u8);
    assert(img.subrange(at + 1, at + 5) =~= le_bytes(e.inode as int, 4)) by {
        assert forall|t: int| 0 <= t < 4 implies img.subrange(at + 1, at + 5)[t] == le_bytes(
            e.inode as int,
            4,
        )[t] by {
            assert(img[at + 1 + t] == held[off + 1 + t]);
            assert(held[off + 1 + t] == piece[1 + t]);
            assert(enc[1 + t] == le_bytes(e.inode as int, 4)[t]);
        }
    }
    lemma_le_u32_round_trip(img, at + 1, e.inode);
}

/// Where the entries `es`, stored from offset `off` of the block with index `blk`
/// on, end.
pub open spec fn end_of(blk: u32, off: u32, es: Seq<Entry>) -> (u32, u32)
    decreases es.len(),
{
    if es.len() == 0 {
        (blk, off)
    } else {
        let next = position_after(blk, off, 5 + es[0].name.len() as int);
        end_of(next.0, next.1, es.drop_first())
    }
}

/// A walk over a part of a directory that holds nothing yields nothing.
#[verifier::rlimit(100)]
pub proof fn lemma_listing_blank(dir: Inode, fs: FsState, slot: u32, k: int, blk: u32, off: u32)
    requires
        fs.wf(),
        tree(dir, fs, slot, nodes_for(k)),
        0 <= k <= MAX_BLOCKS,
        blank(dir, fs, k, blk, off),
    ensures
        listing(dir, fs.image, blk, off) == Seq::<Entry>::empty(),
    decreases k - blk, 4096 - off,
{
    let img = fs.image;
    if blk < MAX_BLOCKS && off <= 3836 {
        lemma_content_in_block(dir, fs, slot, k, blk, off as int, 1);
        if blk < k {
            let block = node_block(dir, img, blk as int);
            let held = fs.block(block);
            lemma_content_in_block(dir, fs, slot, k, blk, off + 1, 4);
            lemma_content_in_block(dir, fs, slot, k, blk, off + 5, 0);
            let addr = (blk * 4096 + off) as u64;
            let c1 = dir.content(img, addr, 1);
            let c4 = dir.content(img, (addr + 1) as u64, 4);
            assert(c1[0] == held[off as int]);
            assert(c4[0] == held[off + 1] && c4[1] == held[off + 2] && c4[2] == held[off + 3]
                && c4[3] == held[off + 4]);
            assert(le_u32(c4, 0) == 0);
            let e = stored_entry(dir, img, addr)->Ok_0;
            assert(e.name.len() == 0);
            let next = position_after(blk, off, 5);
            if off + 5 > 3836 {
                assert(blank(dir, fs, k, next.0, next.1));
            } else {
                assert(blank(dir, fs, k, next.0, next.1));
            }
            lemma_listing_blank(dir, fs, slot, k, next.0, next.1);
        }
    }
}

/// A walk over a directory yields the entries that it holds, in their order.
#[verifier::rlimit(100)]
pub proof fn lemma_listing(
    dir: Inode,
    fs: FsState,
    slot: u32,
    k: int,
    blk: u32,
    off: u32,
    es: Seq<Entry>,
)
    requires
        fs.wf(),
        tree(dir, fs, slot, nodes_for(k)),
        0 <= k <= MAX_BLOCKS,
        holds(dir, fs, k, blk, off, es),
    ensures
        listing(dir, fs.image, blk, off) == es,
    decreases es.len(),
{
    if es.len() == 0 {
        lemma_listing_blank(dir, fs, slot, k, blk, off);
        assert(es =~= Seq::<Entry>::empty());
    } else {
        let e = es[0];
        lemma_entry_is_walked(dir, fs, slot, k, blk, off, e);
        let next = position_after(blk, off, 5 + e.name.len() as int);
        lemma_listing(dir, fs, slot, k, next.0, next.1, es.drop_first());
        assert(seq![e] + es.drop_first() =~= es);
    }
}

/// The scan for a free place in a directory passes the entries that it holds,
/// and ends where they end: at a free place where the last block has room, and
/// else at the block that the directory has yet to get.
#[verifier::rlimit(100)]
pub proof fn lemma_find_free(
    dir: Inode,
    fs: FsState,
    slot: u32,
    k: int,
    blk: u32,
    off: u32,
    count: int,
    es: Seq<Entry>,
)
    requires
        fs.wf(),
        tree(dir, fs, slot, nodes_for(k)),
        0 <= k <= MAX_BLOCKS,
        holds(dir, fs, k, blk, off, es),
    ensures
        dir.find_free(fs.image, blk, off, count) == Ok::<(u32, u32, u32, bool), FsError>(
            (
                end_of(blk, off, es).0,
                end_of(blk, off, es).1,
                (count + es.len()) as u32,
                end_of(blk, off, es).0 < k,
            ),
        ),
        blank(dir, fs, k, end_of(blk, off, es).0, end_of(blk, off, es).1),
        end_of(blk, off, es).0 >= blk,
        end_of(blk, off, es).0 == blk ==> end_of(blk, off, es).1 >= off,
        es.len() > 0 && end_of(blk, off, es).0 == blk ==> end_of(blk, off, es).1 >= off + 5
            + es[0].name.len(),
    decreases es.len(),
{
    let img = fs.image;
    lemma_resolve(dir, fs, slot, nodes_for(k), blk);
    if es.len() == 0 {
        if blk < k {
            assert(nodes_for(k).contains(blk as int));
            let block = node_block(dir, img, blk as int);
            assert(owned(fs, slot, block));
            let held = fs.block(block);
            let at = block * 4096 + off;
            assert(img[at] == held[off as int]);
            assert(img[at + 1] == held[off + 1] && img[at + 2] == held[off + 2] && img[at + 3]
                == held[off + 3] && img[at + 4] == held[off + 4]);
        } else {
            assert(blk < MAX_BLOCKS ==> !nodes_for(k).contains(blk as int));
        }
    } else {
        let e = es[0];
        lemma_entry_is_scanned(dir, fs, slot, k, blk, off, e);
        let next = position_after(blk, off, 5 + e.name.len() as int);
        lemma_find_free(dir, fs, slot, k, next.0, next.1, count + 1, es.drop_first());
        assert(es.drop_first().len() == es.len() - 1);
    }
}

/// The entries of a directory end at or after the place where they start, and
/// the directory holds nothing from where they end.
#[verifier::rlimit(100)]
proof fn lemma_end_order(dir: Inode, fs: FsState, k: int, blk: u32, off: u32, es: Seq<Entry>)
    requires
        0 <= k <= MAX_BLOCKS,
        holds(dir, fs, k, blk, off, es),
    ensures
        blank(dir, fs, k, end_of(blk, off, es).0, end_of(blk, off, es).1),
        end_of(blk, off, es).0 >= blk,
        end_of(blk, off, es).0 <= k,
        end_of(blk, off, es).1 <= 3836,
        end_of(blk, off, es).0 == blk ==> end_of(blk, off, es).1 >= off,
        es.len() > 0 && end_of(blk, off, es).0 == blk ==> end_of(blk, off, es).1 >= off + 5
            + es[0].name.len(),
    decreases es.len(),
{
    if es.len() > 0 {
        let next = position_after(blk, off, 5 + es[0].name.len() as int);
        lemma_end_order(dir, fs, k, next.0, next.1, es.drop_first());
    }
}

/// The entries of a directory all name inodes.
#[verifier::rlimit(100)]
proof fn lemma_held_name(dir: Inode, fs: FsState, k: int, blk: u32, off: u32, es: Seq<Entry>)
    requires
        holds(dir, fs, k, blk, off, es),
    ensures
        forall|i: int| 0 <= i < es.len() ==> names(#[trigger] es[i]),
        off <= 3836,
    decreases es.len(),
{
    if es.len() > 0 {
        let next = position_after(blk, off, 5 + es[0].name.len() as int);
        lemma_held_name(dir, fs, k, next.0, next.1, es.drop_first());
        assert forall|i: int| 0 <= i < es.len() implies names(#[trigger] es[i]) by {
            if i > 0 {
                assert(es[i] == es.drop_first()[i - 1]);
            }
        }
    }
}

/// A directory whose last block has room holds one entry more after that entry
/// was written where its entries ended.
#[verifier::spinoff_prover]
#[verifier::rlimit(100)]
proof fn lemma_holds_after_write(
    dir: Inode,
    fs: FsState,
    fs2: FsState,
    slot: u32,
    k: int,
    blk: u32,
    off: u32,
    es: Seq<Entry>,
    e: Entry,
)
    requires
        fs.wf(),
        tree(dir, fs, slot, nodes_for(k)),
        0 <= k <= MAX_BLOCKS,
        holds(dir, fs, k, blk, off, es),
        end_of(blk, off, es).0 < k,
        names(e),
        forall|j: int|
            0 <= j < k ==> #[trigger] node_block(dir, fs2.image, j) == node_block(dir, fs.image, j),
        forall|j: int|
            0 <= j < k && j != end_of(blk, off, es).0 ==> fs2.block(
                #[trigger] node_block(dir, fs.image, j),
            ) == fs.block(node_block(dir, fs.image, j)),
        fs2.block(node_block(dir, fs.image, end_of(blk, off, es).0 as int)) == splice(
            fs.block(node_block(dir, fs.image, end_of(blk, off, es).0 as int)),
            end_of(blk, off, es).1 as int,
            e.encode(),
        ),
    ensures
        holds(dir, fs2, k, blk, off, es.push(e)),
    decreases es.len(),
{
    let end = end_of(blk, off, es);
    lemma_end_order(dir, fs, k, blk, off, es);
    let size = 5 + e.name.len();
    assert(e.encode().len() == size);
    if es.len() == 0 {
        let b = node_block(dir, fs.image, blk as int);
        assert(node_block(dir, fs2.image, blk as int) == b);
        let grown = es.push(e);
        assert(grown[0] == e);
        assert(grown.drop_first() =~= Seq::<Entry>::empty());
        assert(fs2.block(b).subrange(off as int, off + size) =~= e.encode());
        let next = position_after(blk, off, size as int);
        assert(blank(dir, fs2, k, next.0, next.1)) by {
            if off + size <= 3836 {
                assert forall|t: int| next.1 <= t < 4096 implies #[trigger] fs2.block(
                    node_block(dir, fs2.image, next.0 as int),
                )[t] == 0 by {
                    assert(fs2.block(b)[t] == fs.block(b)[t]);
                }
            }
        }
        assert(holds(dir, fs2, k, next.0, next.1, grown.drop_first()));
        assert(names(grown[0]) && blk < k && off <= 3836);
        assert(fs2.block(node_block(dir, fs2.image, blk as int)).subrange(
            off as int,
            off + 5 + grown[0].name.len(),
        ) == grown[0].encode());
        assert(holds(dir, fs2, k, blk, off, grown));
    } else {
        let e0 = es[0];
        let s0 = 5 + e0.name.len();
        let next = position_after(blk, off, s0 as int);
        let b = node_block(dir, fs.image, blk as int);
        assert(node_block(dir, fs2.image, blk as int) == b);
        assert(end_of(next.0, next.1, es.drop_first()) == end);
        lemma_holds_after_write(dir, fs, fs2, slot, k, next.0, next.1, es.drop_first(), e);
        let grown = es.push(e);
        assert(grown[0] == e0);
        assert(grown.drop_first() =~= es.drop_first().push(e));
        assert(fs2.block(b).subrange(off as int, off + s0) =~= fs.block(b).subrange(
            off as int,
            off + s0,
        )) by {
            if blk == end.0 {
                assert(end.1 >= off + s0);
            }
        }
        assert(holds(dir, fs2, k, next.0, next.1, grown.drop_first()));
        assert(names(grown[0]) && blk < k && off <= 3836);
        assert(fs2.block(node_block(dir, fs2.image, blk as int)).subrange(
            off as int,
            off + 5 + grown[0].name.len(),
        ) == grown[0].encode());
        assert(holds(dir, fs2, k, blk, off, grown));
    }
}

/// A directory that is full to the end of its last block holds what it held
/// after its tree has grown by one block of content.
#[verifier::rlimit(100)]
proof fn lemma_holds_after_growth(
    dir: Inode,
    fs: FsState,
    slot: u32,
    k: int,
    dir2: Inode,
    fs2: FsState,
    blk: u32,
    off: u32,
    es: Seq<Entry>,
)
    requires
        holds(dir, fs, k, blk, off, es),
        end_of(blk, off, es).0 == k,
        0 <= k < MAX_BLOCKS,
        grew(dir, fs, slot, nodes_for(k), dir2, fs2, nodes_for(k + 1)),
    ensures
        holds(dir2, fs2, k + 1, blk, off, es),
    decreases es.len(),
{
    if es.len() == 0 {
        assert(nodes_for(k + 1).contains(k) && !nodes_for(k).contains(k));
        assert(fs2.block(node_block(dir2, fs2.image, k)) == zeros(4096));
    } else {
        let next = position_after(blk, off, 5 + es[0].name.len() as int);
        assert(nodes_for(k).contains(blk as int));
        assert(node_block(dir2, fs2.image, blk as int) == node_block(dir, fs.image, blk as int));
        assert(fs2.block(node_block(dir2, fs2.image, blk as int)) == fs.block(
            node_block(dir, fs.image, blk as int),
        ));
        lemma_holds_after_growth(dir, fs, slot, k, dir2, fs2, next.0, next.1, es.drop_first());
    }
}

/// The number of blocks of content of a directory after an entry was written to
/// where its entries `es` ended: one more where they ended at the end of the last
/// block.
pub open spec fn blocks_after(k: int, es: Seq<Entry>) -> int {
    if end_of(0, 0, es).0 < k {
        k
    } else {
        k + 1
    }
}

/// What `write_dir_entry` without a number does to a directory that holds the
/// entries `es`, where it succeeds: the directory then holds `es` and after
/// them the entry written; the result is the number of entries that it held; and
/// the inode is stored where it was stored.
#[verifier::spinoff_prover]
#[verifier::rlimit(100)]
pub proof fn lemma_put_entry(
    dir: Inode,
    fs: FsState,
    slot: u32,
    k: int,
    es: Seq<Entry>,
    e: Entry,
)
    requires
        fs.wf(),
        home(fs, slot),
        tree(dir, fs, slot, nodes_for(k)),
        0 <= k <= MAX_BLOCKS,
        holds(dir, fs, k, 0, 0, es),
        names(e),
        dir.put_entry(fs, e, None, slot).2 is Ok,
    ensures
        ({
            let p = dir.put_entry(fs, e, None, slot);
            let k2 = blocks_after(k, es);
            &&& p.0.wf()
            &&& home(p.0, slot)
            &&& k2 <= MAX_BLOCKS
            &&& tree(p.1, p.0, slot, nodes_for(k2))
            &&& holds(p.1, p.0, k2, 0, 0, es.push(e))
            &&& p.2 == Ok::<u32, FsError>(es.len() as u32)
            &&& fs.inode(slot) == Ok::<Inode, FsError>(dir) ==> p.0.inode(slot) == Ok::<
                Inode,
                FsError,
            >(p.1)
            &&& p.1.type_and_permission == dir.type_and_permission
            &&& p.1.hardlinks == dir.hardlinks
            &&& p.0.superblock.earliest_inode_space == fs.superblock.earliest_inode_space
            &&& p.0.superblock.total_blocks == fs.superblock.total_blocks
            &&& forall|other: u32|
                home(fs, other) && other != slot ==> home(p.0, other) && #[trigger] p.0.inode(other)
                    == fs.inode(other)
        }),
{
    reveal(Inode::place_new);
    let end = end_of(0, 0, es);
    lemma_find_free(dir, fs, slot, k, 0, 0, 0, es);
    let k2 = blocks_after(k, es);
    let place = dir.place_new(fs, slot);
    let dir2 = place.1;
    let fs2 = place.0;
    if end.0 < k {
        assert(fs2 == fs && dir2 == dir);
    } else {
        assert(end.0 == k && end.1 == 0);
        lemma_extend(dir, fs, slot, k);
        lemma_holds_after_growth(dir, fs, slot, k, dir2, fs2, 0, 0, es);
    }
    assert(fs2.wf() && home(fs2, slot) && tree(dir2, fs2, slot, nodes_for(k2)));
    assert(holds(dir2, fs2, k2, 0, 0, es));
    assert(place.2 == Ok::<(u32, u32, u32), FsError>((end.0, end.1, es.len() as u32)));
    lemma_held_name(dir2, fs2, k2, 0, 0, es);
    lemma_find_free(dir2, fs2, slot, k2, 0, 0, 0, es);
    lemma_resolve(dir2, fs2, slot, nodes_for(k2), end.0);
    assert(nodes_for(k2).contains(end.0 as int));
    let block = node_block(dir2, fs2.image, end.0 as int);
    assert(e.encode().len() == 5 + e.name.len());
    lemma_write_content(dir2, fs2, slot, nodes_for(k2), end.0 as int, end.1 as int, e.encode());
    let fs3 = FsState {
        image: splice(fs2.image, block * 4096 + end.1, e.encode()),
        superblock: fs2.superblock,
    };
    assert(dir.put_entry(fs, e, None, slot).0 == fs3);
    assert forall|j: int| 0 <= j < k2 && j != end.0 implies fs3.block(
        #[trigger] node_block(dir2, fs2.image, j),
    ) == fs2.block(node_block(dir2, fs2.image, j)) by {
        assert(nodes_for(k2).contains(j));
        assert(node_block(dir2, fs3.image, j) == node_block(dir2, fs2.image, j));
    }
    assert forall|j: int| 0 <= j < k2 implies #[trigger] node_block(dir2, fs3.image, j)
        == node_block(dir2, fs2.image, j) by {
        assert(nodes_for(k2).contains(j));
    }
    lemma_holds_after_write(dir2, fs2, fs3, slot, k2, 0, 0, es, e);
}

/// The blocks that the allocator has to hand out for a new entry in a directory
/// with `k` blocks of content that holds the entries `es`: none where the last
/// block has room, and else those that a block of content more takes.
pub open spec fn blocks_for_entry(k: int, es: Seq<Entry>) -> int {
    if blocks_after(k, es) > k {
        tree_size(k + 1) - tree_size(k)
    } else {
        0
    }
}

/// `write_dir_entry` without a number succeeds in a directory that holds the
/// entries `es`, for an entry that names an inode: always where the last block
/// of the directory has room, and else where the directory has fewer blocks than
/// an inode can have and the allocator can hand out those that a block more
/// takes.
#[verifier::spinoff_prover]
#[verifier::rlimit(100)]
pub proof fn lemma_put_entry_succeeds(
    dir: Inode,
    fs: FsState,
    slot: u32,
    k: int,
    es: Seq<Entry>,
    e: Entry,
)
    requires
        fs.wf(),
        home(fs, slot),
        tree(dir, fs, slot, nodes_for(k)),
        0 <= k <= MAX_BLOCKS,
        holds(dir, fs, k, 0, 0, es),
        names(e),
        dir.type_and_permission.inode_type() == InodeType::Directory,
        blocks_after(k, es) > k ==> k < MAX_BLOCKS && can_take(fs, blocks_for_entry(k, es)),
    ensures
        dir.put_entry(fs, e, None, slot).2 is Ok,
{
    reveal(Inode::place_new);
    let end = end_of(0, 0, es);
    lemma_find_free(dir, fs, slot, k, 0, 0, 0, es);
    let k2 = blocks_after(k, es);
    let place = dir.place_new(fs, slot);
    let dir2 = place.1;
    let fs2 = place.0;
    if end.0 < k {
        assert(fs2 == fs && dir2 == dir);
    } else {
        lemma_end_order(dir, fs, k, 0, 0, es);
        assert(end.0 == k && end.1 == 0);
        lemma_extend_succeeds(dir, fs, slot, k);
        lemma_extend(dir, fs, slot, k);
        lemma_holds_after_growth(dir, fs, slot, k, dir2, fs2, 0, 0, es);
    }
    assert(fs2.wf() && home(fs2, slot) && tree(dir2, fs2, slot, nodes_for(k2)));
    assert(place.2 == Ok::<(u32, u32, u32), FsError>((end.0, end.1, es.len() as u32)));
    lemma_held_name(dir2, fs2, k2, 0, 0, es);
    lemma_find_free(dir2, fs2, slot, k2, 0, 0, 0, es);
    lemma_resolve(dir2, fs2, slot, nodes_for(k2), end.0);
    assert(nodes_for(k2).contains(end.0 as int));
    let block = node_block(dir2, fs2.image, end.0 as int);
    assert(owned(fs2, slot, block));
    assert(e.encode().len() == 5 + e.name.len());
}

/// A directory holds what it held while the allocated blocks hold what they
/// held.
#[verifier::rlimit(100)]
pub proof fn lemma_holds_of_kept_blocks(
    dir: Inode,
    a: FsState,
    b: FsState,
    slot: u32,
    k: int,
    blk: u32,
    off: u32,
    es: Seq<Entry>,
)
    requires
        tree(dir, a, slot, nodes_for(k)),
        0 <= k <= MAX_BLOCKS,
        allocated_kept(a, b),
        holds(dir, a, k, blk, off, es),
    ensures
        holds(dir, b, k, blk, off, es),
    decreases es.len(),
{
    lemma_tree_of_kept_blocks(dir, a, b, slot, nodes_for(k));
    if es.len() == 0 {
        if blk != k {
            assert(nodes_for(k).contains(blk as int));
        }
    } else {
        let next = position_after(blk, off, 5 + es[0].name.len() as int);
        assert(nodes_for(k).contains(blk as int));
        lemma_holds_of_kept_blocks(dir, a, b, slot, k, next.0, next.1, es.drop_first());
    }
}

/// The state, inode and success of writing the entries `es` into a directory, one
/// after the other, each into the first free place.
pub open spec fn put_all(dir: Inode, fs: FsState, slot: u32, es: Seq<Entry>) -> (
    FsState,
    Inode,
    bool,
)
    decreases es.len(),
{
    if es.len() == 0 {
        (fs, dir, true)
    } else {
        let p = dir.put_entry(fs, es[0], None, slot);
        if p.2 is Err {
            (p.0, p.1, false)
        } else {
            put_all(p.1, p.0, slot, es.drop_first())
        }
    }
}

/// Entries that were written into a directory, one after the other, are what a
/// walk over the directory yields after the entries that it held, in the order
/// in which they were written. The result is the number of blocks of content
/// that the directory has then.
#[verifier::rlimit(100)]
pub proof fn lemma_entries_are_listed(
    dir: Inode,
    fs: FsState,
    slot: u32,
    k: int,
    held: Seq<Entry>,
    es: Seq<Entry>,
) -> (k2: int)
    requires
        fs.wf(),
        home(fs, slot),
        tree(dir, fs, slot, nodes_for(k)),
        0 <= k <= MAX_BLOCKS,
        holds(dir, fs, k, 0, 0, held),
        forall|i: int| 0 <= i < es.len() ==> names(#[trigger] es[i]),
        put_all(dir, fs, slot, es).2,
    ensures
        ({
            let done = put_all(dir, fs, slot, es);
            &&& done.0.wf()
            &&& home(done.0, slot)
            &&& 0 <= k2 <= MAX_BLOCKS
            &&& tree(done.1, done.0, slot, nodes_for(k2))
            &&& holds(done.1, done.0, k2, 0, 0, held + es)
            &&& listing(done.1, done.0.image, 0, 0) == held + es
            &&& fs.inode(slot) == Ok::<Inode, FsError>(dir) ==> done.0.inode(slot) == Ok::<
                Inode,
                FsError,
            >(done.1)
        }),
    decreases es.len(),
{
    if es.len() == 0 {
        assert(held + es =~= held);
        lemma_listing(dir, fs, slot, k, 0, 0, held);
        k
    } else {
        let p = dir.put_entry(fs, es[0], None, slot);
        lemma_put_entry(dir, fs, slot, k, held, es[0]);
        assert forall|i: int| 0 <= i < es.drop_first().len() implies names(
            #[trigger] es.drop_first()[i],
        ) by {
            assert(es.drop_first()[i] == es[i + 1]);
        }
        let k2 = lemma_entries_are_listed(
            p.1,
            p.0,
            slot,
            blocks_after(k, held),
            held.push(es[0]),
            es.drop_first(),
        );
        assert(held.push(es[0]) + es.drop_first() =~= held + es);
        k2
    }
}

/// What `link_to_inode` does to a directory that holds the entries `es`, where
/// it succeeds: the directory then holds `es` and after them an entry that gives
/// the child its name; the child has one hard link more; and both inodes are
/// stored.
#[verifier::spinoff_prover]
#[verifier::rlimit(100)]
pub proof fn lemma_link(
    dir: Inode,
    fs: FsState,
    parent: u32,
    k: int,
    es: Seq<Entry>,
    child: u32,
    name: Seq<u8>,
)
    requires
        fs.wf(),
        home(fs, parent),
        home(fs, child),
        child != parent,
        fs.inode(parent) == Ok::<Inode, FsError>(dir),
        tree(dir, fs, parent, nodes_for(k)),
        0 <= k <= MAX_BLOCKS,
        holds(dir, fs, k, 0, 0, es),
        fs.link(parent, child, name).1 is Ok,
    ensures
        ({
            let after = fs.link(parent, child, name).0;
            let k2 = blocks_after(k, es);
            let e = Entry { inode: child, name };
            &&& fs.link(parent, child, name).1 == Ok::<u32, FsError>(child)
            &&& after.wf()
            &&& home(after, parent)
            &&& home(after, child)
            &&& after.inode(parent) is Ok
            &&& tree(after.inode(parent)->Ok_0, after, parent, nodes_for(k2))
            &&& holds(after.inode(parent)->Ok_0, after, k2, 0, 0, es.push(e))
            &&& listing(after.inode(parent)->Ok_0, after.image, 0, 0) == es.push(e)
            &&& after.inode(parent)->Ok_0.type_and_permission == dir.type_and_permission
            &&& after.inode(child) == Ok::<Inode, FsError>(
                Inode {
                    hardlinks: (fs.inode(child)->Ok_0.hardlinks + 1) as u16,
                    ..fs.inode(child)->Ok_0
                },
            )
            &&& k2 <= MAX_BLOCKS
            &&& after.inode(parent)->Ok_0.hardlinks == dir.hardlinks
            &&& hint_ok(fs) ==> hint_ok(after)
            &&& forall|other: u32| home(fs, other) ==> #[trigger] home(after, other)
            &&& after.superblock.total_blocks == fs.superblock.total_blocks
        }),
{
    reveal(FsState::link);
    let node = fs.inode(child)->Ok_0;
    let linked = Inode { hardlinks: (node.hardlinks + 1) as u16, ..node };
    let w = fs.put_inode(child, linked);
    lemma_other_inode_stored(dir, fs, parent, k, es, child, linked);
    let e = Entry { inode: child, name };
    assert(child != 0) by {
        assert(usable(fs, child / 32));
    }
    lemma_put_entry(dir, w.0, parent, k, es, e);
    let p = dir.put_entry(w.0, e, None, parent);
    let k2 = blocks_after(k, es);
    lemma_listing(p.1, p.0, parent, k2, 0, 0, es.push(e));
    let hint = fs.superblock.earliest_inode_space;
    if hint >= 64 && hint_ok(fs) && hint != parent {
        assert(home(w.0, hint));
        assert(p.0.inode(hint) == w.0.inode(hint));
    }
    assert forall|other: u32| home(fs, other) implies #[trigger] home(p.0, other) by {
        assert(home(w.0, other));
        if other != parent {
            assert(p.0.inode(other) == w.0.inode(other));
        }
    }
}

/// `link_to_inode` succeeds where the child has fewer hard links than the field
/// can count, the name has 1 to 254 bytes, the parent is a directory, and the
/// entry can be written into it.
#[verifier::spinoff_prover]
#[verifier::rlimit(100)]
pub proof fn lemma_link_succeeds(
    dir: Inode,
    fs: FsState,
    parent: u32,
    k: int,
    es: Seq<Entry>,
    child: u32,
    name: Seq<u8>,
)
    requires
        fs.wf(),
        home(fs, parent),
        home(fs, child),
        child != parent,
        fs.inode(parent) == Ok::<Inode, FsError>(dir),
        tree(dir, fs, parent, nodes_for(k)),
        0 <= k <= MAX_BLOCKS,
        holds(dir, fs, k, 0, 0, es),
        fs.inode(child) is Ok ==> fs.inode(child)->Ok_0.hardlinks < u16::MAX,
        0 < name.len() < 255,
        dir.type_and_permission.inode_type() == InodeType::Directory,
        blocks_after(k, es) > k ==> k < MAX_BLOCKS && can_take(fs, blocks_for_entry(k, es)),
    ensures
        fs.link(parent, child, name).1 is Ok,
{
    reveal(FsState::link);
    assert(fs.inode(child) is Ok) by {
        assert(usable(fs, child / 32));
        assert(child * 128 + 128 <= (child / 32) * 4096 + 4096);
    }
    let node = fs.inode(child)->Ok_0;
    let linked = Inode { hardlinks: (node.hardlinks + 1) as u16, ..node };
    let w = fs.put_inode(child, linked);
    lemma_other_inode_stored(dir, fs, parent, k, es, child, linked);
    let e = Entry { inode: child, name };
    assert(child != 0) by {
        assert(usable(fs, child / 32));
    }
    lemma_put_entry_succeeds(dir, w.0, parent, k, es, e);
}

/// The state and success of linking the inodes in the slots `children` into the
/// directory in slot `parent`, one after the other, each under the name that
/// `names` gives at its place.
pub open spec fn link_all(fs: FsState, parent: u32, children: Seq<u32>, names: Seq<Seq<u8>>) -> (
    FsState,
    bool,
)
    decreases children.len(),
{
    if children.len() == 0 {
        (fs, true)
    } else {
        let l = fs.link(parent, children[0], names[0]);
        if l.1 is Err {
            (l.0, false)
        } else {
            link_all(l.0, parent, children.drop_first(), names.drop_first())
        }
    }
}

/// The entries that give the inodes in the slots `children` the names `names`.
pub open spec fn entries_for(children: Seq<u32>, names: Seq<Seq<u8>>) -> Seq<Entry> {
    Seq::new(children.len(), |i: int| Entry { inode: children[i], name: names[i] })
}

/// Inodes that were linked into a directory, one after the other and each with
/// success, are what a walk over the directory from its start yields after the
/// entries that it held: one entry for each, with its slot and its name, in the
/// order in which they were linked. The result is the number of blocks of
/// content that the directory has then.
#[verifier::rlimit(100)]
pub proof fn lemma_links_are_listed(
    dir: Inode,
    fs: FsState,
    parent: u32,
    k: int,
    held: Seq<Entry>,
    children: Seq<u32>,
    names: Seq<Seq<u8>>,
) -> (k2: int)
    requires
        fs.wf(),
        home(fs, parent),
        fs.inode(parent) == Ok::<Inode, FsError>(dir),
        tree(dir, fs, parent, nodes_for(k)),
        0 <= k <= MAX_BLOCKS,
        holds(dir, fs, k, 0, 0, held),
        children.len() == names.len(),
        forall|i: int|
            0 <= i < children.len() ==> home(fs, #[trigger] children[i]) && children[i] != parent,
        link_all(fs, parent, children, names).1,
    ensures
        ({
            let after = link_all(fs, parent, children, names).0;
            let walk = DirectoryIterator {
                next_off: 0,
                next_blk: 0,
                inode: after.inode(parent)->Ok_0,
            };
            &&& after.wf()
            &&& home(after, parent)
            &&& after.inode(parent) is Ok
            &&& 0 <= k2 <= MAX_BLOCKS
            &&& tree(after.inode(parent)->Ok_0, after, parent, nodes_for(k2))
            &&& holds(after.inode(parent)->Ok_0, after, k2, 0, 0, held + entries_for(children, names))
            &&& walk.remaining(after.image) == held + entries_for(children, names)
            &&& forall|other: u32| home(fs, other) ==> #[trigger] home(after, other)
        }),
    decreases children.len(),
{
    if children.len() == 0 {
        assert(held + entries_for(children, names) =~= held);
        lemma_listing(dir, fs, parent, k, 0, 0, held);
        k
    } else {
        let first = Entry { inode: children[0], name: names[0] };
        let l = fs.link(parent, children[0], names[0]);
        lemma_link(dir, fs, parent, k, held, children[0], names[0]);
        let rest = children.drop_first();
        assert forall|i: int| 0 <= i < rest.len() implies home(l.0, #[trigger] rest[i]) && rest[i]
            != parent by {
            assert(rest[i] == children[i + 1]);
            assert(home(fs, children[i + 1]));
        }
        let k2 = lemma_links_are_listed(
            l.0.inode(parent)->Ok_0,
            l.0,
            parent,
            blocks_after(k, held),
            held.push(first),
            rest,
            names.drop_first(),
        );
        assert(held.push(first) + entries_for(rest, names.drop_first()) =~= held + entries_for(
            children,
            names,
        ));
        let after = link_all(fs, parent, children, names).0;
        assert forall|other: u32| home(fs, other) implies #[trigger] home(after, other) by {
            assert(home(l.0, other));
        }
        k2
    }
}

/// Storing an inode in another slot of an inode block leaves a directory as it
/// is.
#[verifier::rlimit(100)]
proof fn lemma_other_inode_stored(
    dir: Inode,
    fs: FsState,
    parent: u32,
    k: int,
    es: Seq<Entry>,
    child: u32,
    inode: Inode,
)
    requires
        fs.wf(),
        home(fs, parent),
        home(fs, child),
        child != parent,
        tree(dir, fs, parent, nodes_for(k)),
        0 <= k <= MAX_BLOCKS,
        holds(dir, fs, k, 0, 0, es),
    ensures
        ({
            let w = fs.put_inode(child, inode);
            &&& w.1 is Ok
            &&& w.0.wf()
            &&& w.0.superblock == fs.superblock
            &&& w.0.inode(child) == Ok::<Inode, FsError>(inode)
            &&& w.0.inode(parent) == fs.inode(parent)
            &&& tree(dir, w.0, parent, nodes_for(k))
            &&& holds(dir, w.0, k, 0, 0, es)
            &&& forall|other: u32| home(fs, other) ==> #[trigger] home(w.0, other)
        }),
{
    let w = fs.put_inode(child, inode);
    lemma_put_inode_keeps_allocated(fs, child, inode, parent);
    lemma_tree_of_kept_blocks(dir, fs, w.0, parent, nodes_for(k));
    lemma_holds_of_kept_blocks(dir, fs, w.0, parent, k, 0, 0, es);
    assert forall|other: u32| home(fs, other) implies #[trigger] home(w.0, other) by {
        assert(w.0.entry(other / 32) == fs.entry(other / 32));
    }
}

/// What the scan for a free slot finds is a slot from `from` on and below `upto`
/// whose stored inode has no hard link.
#[verifier::rlimit(100)]
proof fn lemma_free_slot(fs: FsState, from: int, upto: int)
    requires
        0 <= from,
    ensures
        fs.free_slot(from, upto) matches Ok(Some(slot)) ==> from <= slot < upto && fs.inode(slot)
            is Ok && fs.inode(slot)->Ok_0.hardlinks == 0,
    decreases upto - from,
{
    if from < upto && from <= u32::MAX {
        lemma_free_slot(fs, from + 1, upto);
    }
}

/// The scan for a free slot succeeds where the slots lie on the device.
#[verifier::rlimit(100)]
proof fn lemma_free_slot_on_device(fs: FsState, from: int, upto: int)
    requires
        0 <= from,
        upto * 128 <= fs.image.len(),
    ensures
        fs.free_slot(from, upto) is Ok,
    decreases upto - from,
{
    if from < upto && from <= u32::MAX {
        lemma_free_slot_on_device(fs, from + 1, upto);
    }
}

/// `create_inode` succeeds on a well-formed filesystem whose hint is sound where
/// the allocator can hand out a block. It takes at most one, for a new inode
/// block.
#[verifier::spinoff_prover]
#[verifier::rlimit(100)]
pub proof fn lemma_create_inode_succeeds(fs: FsState, inode: Inode)
    requires
        fs.wf(),
        hint_ok(fs),
        fs.superblock.total_blocks <= 0x800_0000,
        can_take(fs, 1),
    ensures
        fs.create_inode(inode).1 is Ok,
        fs.create_inode(inode).0.superblock.earliest_free != 0,
        fs.create_inode(inode).0.superblock.total_unused >= fs.superblock.total_unused - 1,
{
    let hint = fs.superblock.earliest_inode_space;
    let picked = fs.take_slot();
    if hint >= 64 {
        assert(usable(fs, hint / 32));
        assert((hint + 32) * 128 == (hint / 32) * 4096 + 4096);
        lemma_free_slot(fs, hint as int, hint + 32);
        lemma_free_slot_on_device(fs, hint as int, hint + 32);
    }
    let hinted = if hint >= 64 {
        fs.free_slot(hint as int, hint + 32)
    } else {
        Ok(None)
    };
    if hinted is Ok && hinted->Ok_0 is Some {
        let slot = hinted->Ok_0->Some_0;
        assert(picked.0 == fs);
        assert(slot / 32 == hint / 32);
        lemma_put_inode(fs, slot, inode);
    } else {
        lemma_allocate_succeeds(fs, true);
        lemma_allocate(fs, true);
        let block = fs.allocate(true).1->Ok_0;
        let slot = (block * 32) as u32;
        assert(slot / 32 == block);
        lemma_put_inode(picked.0, slot, inode);
    }
}

/// What `create_inode` does on a well-formed filesystem whose hint is sound,
/// where it succeeds: the inode is stored in a slot of an inode block that held
/// no inode with a hard link; the allocated blocks hold what they held, and the
/// other slots of inode blocks; and the filesystem stays well-formed, with a
/// sound hint.
#[verifier::spinoff_prover]
#[verifier::rlimit(100)]
pub proof fn lemma_create_inode(fs: FsState, inode: Inode, other: u32)
    requires
        fs.wf(),
        hint_ok(fs),
        fs.superblock.total_blocks <= 0x800_0000,
        fs.create_inode(inode).1 is Ok,
    ensures
        ({
            let after = fs.create_inode(inode).0;
            let slot = fs.create_inode(inode).1->Ok_0;
            &&& after.wf()
            &&& hint_ok(after)
            &&& home(after, slot)
            &&& after.inode(slot) == Ok::<Inode, FsError>(inode)
            &&& allocated_kept(fs, after)
            &&& home(fs, slot) ==> fs.inode(slot) is Ok && fs.inode(slot)->Ok_0.hardlinks == 0
            &&& home(fs, other) && other != slot ==> home(after, other) && after.inode(other)
                == fs.inode(other)
            &&& after.superblock.total_blocks == fs.superblock.total_blocks
        }),
{
    let hint = fs.superblock.earliest_inode_space;
    let picked = fs.take_slot();
    let slot = picked.1->Ok_0;
    if hint >= 64 {
        lemma_free_slot(fs, hint as int, hint + 32);
    }
    let hinted = if hint >= 64 {
        fs.free_slot(hint as int, hint + 32)
    } else {
        Ok(None)
    };
    if hinted is Ok && hinted->Ok_0 is Some {
        assert(picked.0 == fs);
        assert(slot / 32 == hint / 32);
    } else {
        lemma_allocate(fs, true);
        lemma_allocate_keeps_allocated(fs, true, other);
        let block = fs.allocate(true).1->Ok_0;
        assert(slot == block * 32);
        assert(slot / 32 == block);
        if hint >= 64 {
            assert(picked.0.entry(hint / 32) == fs.entry(hint / 32));
        }
    }
    assert(picked.0.wf() && home(picked.0, slot));
    lemma_put_inode_keeps_allocated(picked.0, slot, inode, other);
    let after = picked.0.put_inode(slot, inode).0;
    assert(allocated_kept(fs, after)) by {
        assert forall|block: u32|
            usable(fs, block) && fs.entry(block) == crate::fs::BlockArrayEntry::Allocated implies #[trigger] after.entry(
            block,
        ) == crate::fs::BlockArrayEntry::Allocated && after.block(block) == fs.block(block) by {
            assert(picked.0.entry(block) == crate::fs::BlockArrayEntry::Allocated);
            assert(picked.0.block(block) == fs.block(block));
        }
    }
    let hint2 = after.superblock.earliest_inode_space;
    if hint2 >= 64 {
        assert(after.entry(hint2 / 32) == picked.0.entry(hint2 / 32));
    }
    assert(after.entry(slot / 32) == picked.0.entry(slot / 32));
    if home(fs, other) && other != slot {
        assert(after.entry(other / 32) == picked.0.entry(other / 32));
    }
}

/// What `create_dir_entry` does to a directory that holds the entries `es`, on a
/// well-formed filesystem whose hint is sound, where it succeeds: the new inode
/// is stored with one hard link in a slot of an inode block; the directory then
/// holds `es` and after them an entry that gives that slot the name; a walk over
/// it yields those entries; and all that was required holds again.
#[verifier::rlimit(100)]
pub proof fn lemma_add(
    dir: Inode,
    fs: FsState,
    parent: u32,
    k: int,
    es: Seq<Entry>,
    child: Inode,
    name: Seq<u8>,
)
    requires
        fs.wf(),
        hint_ok(fs),
        fs.superblock.total_blocks <= 0x800_0000,
        home(fs, parent),
        fs.inode(parent) == Ok::<Inode, FsError>(dir),
        dir.hardlinks > 0,
        tree(dir, fs, parent, nodes_for(k)),
        0 <= k <= MAX_BLOCKS,
        holds(dir, fs, k, 0, 0, es),
        fs.add(parent, child, name).1 is Ok,
    ensures
        ({
            let after = fs.add(parent, child, name).0;
            let slot = fs.add(parent, child, name).1->Ok_0;
            let k2 = blocks_after(k, es);
            let e = Entry { inode: slot, name };
            &&& after.wf()
            &&& hint_ok(after)
            &&& home(after, parent)
            &&& home(after, slot)
            &&& slot != parent
            &&& after.inode(slot) == Ok::<Inode, FsError>(Inode { hardlinks: 1, ..child })
            &&& after.inode(parent) is Ok
            &&& after.inode(parent)->Ok_0.hardlinks == dir.hardlinks
            &&& after.inode(parent)->Ok_0.type_and_permission == dir.type_and_permission
            &&& k2 <= MAX_BLOCKS
            &&& tree(after.inode(parent)->Ok_0, after, parent, nodes_for(k2))
            &&& holds(after.inode(parent)->Ok_0, after, k2, 0, 0, es.push(e))
            &&& listing(after.inode(parent)->Ok_0, after.image, 0, 0) == es.push(e)
            &&& after.superblock.total_blocks == fs.superblock.total_blocks
        }),
{
    let unlinked = Inode { hardlinks: 0, ..child };
    let c = fs.create_inode(unlinked);
    let slot = c.1->Ok_0;
    lemma_create_inode(fs, unlinked, parent);
    assert(slot != parent);
    lemma_tree_of_kept_blocks(dir, fs, c.0, parent, nodes_for(k));
    lemma_holds_of_kept_blocks(dir, fs, c.0, parent, k, 0, 0, es);
    lemma_link(dir, c.0, parent, k, es, slot, name);
}

/// `create_dir_entry` succeeds on a well-formed filesystem whose hint is sound
/// where the name has 1 to 254 bytes, the parent is a directory that can take
/// the entry, and the allocator can hand out a block for the inode and those
/// that the entry takes.
#[verifier::spinoff_prover]
#[verifier::rlimit(100)]
pub proof fn lemma_add_succeeds(
    dir: Inode,
    fs: FsState,
    parent: u32,
    k: int,
    es: Seq<Entry>,
    child: Inode,
    name: Seq<u8>,
)
    requires
        fs.wf(),
        hint_ok(fs),
        fs.superblock.total_blocks <= 0x800_0000,
        home(fs, parent),
        fs.inode(parent) == Ok::<Inode, FsError>(dir),
        dir.hardlinks > 0,
        tree(dir, fs, parent, nodes_for(k)),
        0 <= k <= MAX_BLOCKS,
        holds(dir, fs, k, 0, 0, es),
        0 < name.len() < 255,
        dir.type_and_permission.inode_type() == InodeType::Directory,
        blocks_after(k, es) > k ==> k < MAX_BLOCKS,
        can_take(fs, 1 + blocks_for_entry(k, es)),
    ensures
        fs.add(parent, child, name).1 is Ok,
{
    let unlinked = Inode { hardlinks: 0, ..child };
    let c = fs.create_inode(unlinked);
    lemma_create_inode_succeeds(fs, unlinked);
    let slot = c.1->Ok_0;
    lemma_create_inode(fs, unlinked, parent);
    assert(slot != parent);
    lemma_tree_of_kept_blocks(dir, fs, c.0, parent, nodes_for(k));
    lemma_holds_of_kept_blocks(dir, fs, c.0, parent, k, 0, 0, es);
    lemma_link_succeeds(dir, c.0, parent, k, es, slot, name);
}

/// The state, the slots and the success of `create_dir_entry` for the inodes
/// `children` in the directory in slot `parent`, one after the other, each under
/// the name that `names` gives at its place.
pub open spec fn add_all(fs: FsState, parent: u32, children: Seq<Inode>, names: Seq<Seq<u8>>) -> (
    FsState,
    Seq<u32>,
    bool,
)
    decreases children.len(),
{
    if children.len() == 0 {
        (fs, Seq::empty(), true)
    } else {
        let a = fs.add(parent, children[0], names[0]);
        let rest = add_all(a.0, parent, children.drop_first(), names.drop_first());
        if a.1 is Err {
            (a.0, Seq::empty(), false)
        } else {
            (rest.0, seq![a.1->Ok_0] + rest.1, rest.2)
        }
    }
}

/// Inodes for which `create_dir_entry` made entries in a directory, one after
/// the other and each with success, are what a walk over the directory from its
/// start yields after the entries that it held: one entry for each, with the
/// slot that it got and its name, in the order in which they were made. The
/// result is the number of blocks of content that the directory has then.
#[verifier::rlimit(100)]
pub proof fn lemma_added_are_listed(
    dir: Inode,
    fs: FsState,
    parent: u32,
    k: int,
    held: Seq<Entry>,
    children: Seq<Inode>,
    names: Seq<Seq<u8>>,
) -> (k2: int)
    requires
        fs.wf(),
        hint_ok(fs),
        fs.superblock.total_blocks <= 0x800_0000,
        home(fs, parent),
        fs.inode(parent) == Ok::<Inode, FsError>(dir),
        dir.hardlinks > 0,
        tree(dir, fs, parent, nodes_for(k)),
        0 <= k <= MAX_BLOCKS,
        holds(dir, fs, k, 0, 0, held),
        children.len() == names.len(),
        add_all(fs, parent, children, names).2,
    ensures
        ({
            let done = add_all(fs, parent, children, names);
            let walk = DirectoryIterator {
                next_off: 0,
                next_blk: 0,
                inode: done.0.inode(parent)->Ok_0,
            };
            &&& done.0.wf()
            &&& hint_ok(done.0)
            &&& home(done.0, parent)
            &&& done.0.inode(parent) is Ok
            &&& 0 <= k2 <= MAX_BLOCKS
            &&& tree(done.0.inode(parent)->Ok_0, done.0, parent, nodes_for(k2))
            &&& done.1.len() == children.len()
            &&& holds(done.0.inode(parent)->Ok_0, done.0, k2, 0, 0, held + entries_for(done.1, names))
            &&& walk.remaining(done.0.image) == held + entries_for(done.1, names)
        }),
    decreases children.len(),
{
    if children.len() == 0 {
        assert(held + entries_for(Seq::<u32>::empty(), names) =~= held);
        lemma_listing(dir, fs, parent, k, 0, 0, held);
        k
    } else {
        let a = fs.add(parent, children[0], names[0]);
        let first = Entry { inode: a.1->Ok_0, name: names[0] };
        lemma_add(dir, fs, parent, k, held, children[0], names[0]);
        let rest = add_all(a.0, parent, children.drop_first(), names.drop_first());
        let k2 = lemma_added_are_listed(
            a.0.inode(parent)->Ok_0,
            a.0,
            parent,
            blocks_after(k, held),
            held.push(first),
            children.drop_first(),
            names.drop_first(),
        );
        assert(held.push(first) + entries_for(rest.1, names.drop_first()) =~= held + entries_for(
            seq![a.1->Ok_0] + rest.1,
            names,
        ));
        k2
    }
}

/// The root directory of the filesystem that `create` makes is a directory
/// without entries, stored in slot 64 of an inode block, and the superblock's
/// hint is sound.
#[verifier::rlimit(100)]
pub proof fn lemma_created_root(num_blocks: u32, name: Seq<u8>, now: u64)
    requires
        created(num_blocks, name, now) is Ok,
    ensures
        ({
            let fs = created(num_blocks, name, now)->Ok_0;
            let root = root_directory(now);
            &&& fs.wf()
            &&& hint_ok(fs)
            &&& home(fs, 64)
            &&& fs.superblock.root_inode == 64
            &&& fs.inode(64) == Ok::<Inode, FsError>(root)
            &&& root.hardlinks == 1
            &&& root.type_and_permission.inode_type() == InodeType::Directory
            &&& tree(root, fs, 64, nodes_for(0))
            &&& holds(root, fs, 0, 0, 0, Seq::<Entry>::empty())
            &&& listing(root, fs.image, 0, 0) == Seq::<Entry>::empty()
        }),
{
    let fs = created(num_blocks, name, now)->Ok_0;
    let root = root_directory(now);
    crate::allocation::lemma_created(num_blocks, name, now);
    crate::tree::lemma_no_blocks(root, fs, 64);
    lemma_listing(root, fs, 64, 0, 0, 0, Seq::<Entry>::empty());
    assert(0x41fdu16 & 0xf000u16 == 0x4000u16) by (bit_vector);
}

} // verus!
