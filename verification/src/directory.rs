//! Directories: entries of variable length, packed into the blocks of a directory
//! inode.

use crate::codec::{get_u32, le_bytes, le_u32, put_u32, splice, zeros};
use crate::disk::{Disk, DiskError, IO};
use crate::fs::{lift, FileSystem, FsError};
use crate::inode::{Inode, MAX_BLOCKS};
use crate::std_calls::{string_from_utf8_lossy, utf8_lossy};
use vstd::array::array_as_slice;
use vstd::prelude::*;
use vstd::slice::slice_subrange;
use vstd::string::StringSliceAdditionalSpecFns;
use vstd::utf8::{decode_utf8, encode_utf8, encode_utf8_decode_utf8, encode_utf8_valid_utf8, valid_utf8};

verus! {

/// The length of the name field of an entry in memory. A stored name has fewer
/// bytes.
pub const DIRENTRY_NAME_LENGTH: usize = 0xff;

/// The last offset in a block at which an entry starts: one of the greatest
/// length, 260 bytes, still ends within the block there. An entry that ends
/// beyond this offset is followed by the first entry of the next block.
pub const DIRENTRY_LAST_OFFSET: u32 = 3836;

/// An entry of a directory: the inode that it names, and its name in the first
/// `name_size` bytes of `name`, with zeros after them.
#[derive(Debug)]
pub struct DirEntry {
    pub name_size: u8,
    pub inode: u32,
    pub name: [u8; 255],
}

/// What a directory entry says: the inode that it names, and its name.
pub struct Entry {
    pub inode: u32,
    pub name: Seq<u8>,
}

impl Entry {
    /// An entry without an inode or without a name marks a free place.
    pub open spec fn is_empty(self) -> bool {
        self.inode == 0 || self.name.len() == 0
    }

    /// The stored form: the name's length, the inode in little-endian form, and
    /// the name.
    pub open spec fn encode(self) -> Seq<u8> {
        seq![self.name.len() as u8] + le_bytes(self.inode as int, 4) + self.name
    }
}

/// The position in a directory that follows an entry of `size` bytes at offset
/// `off` of the block with index `blk`.
pub open spec fn position_after(blk: u32, off: u32, size: int) -> (u32, u32) {
    if off + size > 3836 {
        ((blk + 1) as u32, 0)
    } else {
        (blk, (off + size) as u32)
    }
}

/// What reading the entry at offset `addr` of the content of `dir` gives on a
/// reliable device that holds `img`. The length of the name comes first, then the
/// inode, then the name; it fails where the content ends before the entry does.
pub open spec fn stored_entry(dir: Inode, img: Seq<u8>, addr: u64) -> Result<Entry, FsError> {
    let size = dir.content(img, addr, 1);
    let inode = dir.content(img, (addr + 1) as u64, 4);
    let name = dir.content(img, (addr + 5) as u64, size[0] as nat);
    if size.len() < 1 {
        Err(FsError::NoSpace)
    } else if inode.len() < 4 {
        Err(FsError::DiskError(DiskError::NotEnoughSpace))
    } else if name.len() < size[0] {
        Err(FsError::NoSpace)
    } else {
        Ok(Entry { inode: le_u32(inode, 0), name })
    }
}

/// The entries that a walk over the content of `dir` yields from offset `off` of
/// the block with index `blk` on, on a reliable device that holds `img`: entries
/// that mark a free place are passed over, and the walk ends where no entry can
/// be read.
pub open spec fn listing(dir: Inode, img: Seq<u8>, blk: u32, off: u32) -> Seq<Entry>
    decreases MAX_BLOCKS - blk, 4096 - off,
{
    if blk >= MAX_BLOCKS || off > 3836 {
        Seq::empty()
    } else {
        match stored_entry(dir, img, (blk * 4096 + off) as u64) {
            Err(_) => Seq::empty(),
            Ok(e) => {
                let next = position_after(blk, off, 5 + e.name.len() as int);
                if e.name.len() > 255 {
                    Seq::empty()
                } else if e.is_empty() {
                    listing(dir, img, next.0, next.1)
                } else {
                    seq![e] + listing(dir, img, next.0, next.1)
                }
            },
        }
    }
}

impl DirEntry {
    /// What the entry says.
    pub open spec fn view(&self) -> Entry {
        Entry { inode: self.inode, name: self.name@.take(self.name_size as int) }
    }

    /// Reads the entry at offset `addr` of the content of `inode`.
    pub fn read_from_disk<D: IO>(inode: &mut Inode, fs: &mut FileSystem<D>, addr: u64) -> (r: Result<
        Self,
        FsError,
    >)
        ensures
            *final(inode) == *old(inode),
            final(fs)@ == old(fs)@,
            final(fs).reliable() == old(fs).reliable(),
            r matches Ok(e) ==> e.name@.skip(e.name_size as int) == zeros(
                (255 - e.name_size) as nat,
            ),
            old(fs).reliable() ==> match r {
                Ok(e) => Ok::<Entry, FsError>(e@),
                Err(e) => Err::<Entry, FsError>(e),
            } == stored_entry(*old(inode), old(fs)@.image, addr),
    {
        let mut empty = DirEntry { name_size: 0, inode: 0, name: [0u8; 255] };
        if addr >= MAX_BLOCKS as u64 * 4096 {
            return Err(FsError::NoSpace);
        }
        proof {
            inode.lemma_content_len(fs@.image, addr, 1);
            inode.lemma_content_len(fs@.image, (addr + 1) as u64, 4);
        }
        let mut value: Vec<u8> = vec![0u8; 1];
        inode.read_exact(addr, value.as_mut_slice(), fs)?;
        empty.name_size = value[0];
        let mut number: Vec<u8> = vec![0u8; 4];
        match inode.read_exact(addr + 1, number.as_mut_slice(), fs) {
            Ok(_) => {},
            Err(FsError::NoSpace) => {
                return Err(FsError::DiskError(DiskError::NotEnoughSpace));
            },
            Err(e) => {
                return Err(e);
            },
        }
        empty.inode = get_u32(number.as_slice(), 0);
        let size: usize = empty.name_size as usize;
        let mut name: Vec<u8> = vec![0u8; size];
        proof {
            inode.lemma_content_len(fs@.image, (addr + 5) as u64, size as nat);
        }
        if size != 0 {
            inode.read_exact(addr + 5, name.as_mut_slice(), fs)?;
        }
        let ghost header = (empty.name_size, empty.inode);
        let mut i: usize = 0;
        while i < size
            invariant
                i <= size <= 255,
                size == name@.len(),
                header == (empty.name_size, empty.inode),
                forall|k: int| 0 <= k < i ==> empty.name@[k] == name@[k],
                forall|k: int| i <= k < 255 ==> empty.name@[k] == 0,
            decreases size - i,
        {
            empty.name[i] = name[i];
            i += 1;
        }
        proof {
            assert(empty.name@.take(size as int) =~= name@);
            assert(empty.name@.skip(size as int) =~= zeros((255 - size) as nat));
            if fs.reliable() {
                let img = fs@.image;
                let c1 = inode.content(img, addr, 1);
                let c4 = inode.content(img, (addr + 1) as u64, 4);
                assert(value@ =~= c1);
                assert(number@ =~= c4);
                if size != 0 {
                    assert(name@ =~= inode.content(img, (addr + 5) as u64, size as nat));
                } else {
                    assert(inode.content(img, (addr + 5) as u64, 0) =~= Seq::<u8>::empty());
                }
                let st = stored_entry(*inode, img, addr);
                assert(c1.len() == 1);
                assert(c4.len() == 4);
                assert(c1[0] == empty.name_size);
                assert(st is Ok);
                assert(st->Ok_0.inode == empty.inode);
                assert(st->Ok_0.name =~= empty@.name);
                assert(st->Ok_0 == empty@);
            }
        }
        Ok(empty)
    }

    /// The entry that gives the inode `inode` the name `name`. Fails where the name
    /// is empty or has 255 bytes or more.
    pub fn create(inode: u32, name: String) -> (r: Result<Self, FsError>)
        ensures
            match r {
                Ok(e) => e@ == (Entry { inode, name: encode_utf8(name@) }) && e.name@.skip(
                    e.name_size as int,
                ) == zeros((255 - e.name_size) as nat),
                Err(e) => e is NameTooLong,
            },
            r is Ok <==> 0 < encode_utf8(name@).len() < 255,
    {
        let text = name.as_str();
        let bytes = text.as_bytes();
        let len: usize = bytes.len();
        if len >= DIRENTRY_NAME_LENGTH || len == 0 {
            return Err(FsError::NameTooLong);
        }
        let mut ent = DirEntry { name_size: len as u8, inode, name: [0u8; 255] };
        let mut i: usize = 0;
        while i < len
            invariant
                i <= len < 255,
                len == bytes@.len(),
                ent.name_size == len,
                ent.inode == inode,
                forall|k: int| 0 <= k < i ==> ent.name@[k] == bytes@[k],
                forall|k: int| i <= k < 255 ==> ent.name@[k] == 0,
            decreases len - i,
        {
            ent.name[i] = bytes[i];
            i += 1;
        }
        assert(ent.name@.take(len as int) =~= bytes@);
        assert(ent.name@.skip(len as int) =~= zeros((255 - len) as nat));
        Ok(ent)
    }

    /// Whether the entry marks a free place.
    pub fn is_empty(&self) -> (b: bool)
        ensures
            b == self@.is_empty(),
    {
        self.inode == 0 || self.name_size == 0
    }

    /// The number of bytes that the stored entry takes.
    pub fn get_size(&self) -> (size: u32)
        ensures
            size == 5 + self.name_size,
            size == self@.encode().len(),
    {
        5 + self.name_size as u32
    }

    /// Writes the entry's stored form at address `addr` of `disk`.
    pub fn write_to_disk<D: IO>(&self, disk: &mut Disk<D>, addr: u64) -> (r: Result<(), FsError>)
        ensures
            final(disk).reliable() == old(disk).reliable(),
            final(disk)@.len() == old(disk)@.len(),
            r matches Err(e) ==> e is DiskError,
            old(disk).reliable() || r is Ok ==> final(disk)@ == splice(
                old(disk)@,
                addr as int,
                self@.encode(),
            ) && (r is Ok <==> addr + self@.encode().len() <= old(disk)@.len()),
            old(disk).reliable() && r is Err ==> r == Err::<(), FsError>(
                FsError::DiskError(DiskError::NotEnoughSpace),
            ),
    {
        let ghost img = disk@;
        let ghost e = self@;
        lift(disk.write_u8(addr, self.name_size))?;
        let ghost img1 = disk@;
        let w = lift(disk.write_u32(addr + 1, self.inode));
        let ghost img2 = disk@;
        proof {
            if old(disk).reliable() || w is Ok {
                assert(img2 =~= splice(img, addr as int, seq![self.name_size] + le_bytes(
                    self.inode as int,
                    4,
                )));
                if w is Err {
                    assert(img2 =~= splice(img, addr as int, e.encode()));
                }
            }
        }
        w?;
        let w = lift(
            disk.write_exact(
                addr + 5,
                slice_subrange(array_as_slice(&self.name), 0, self.name_size as usize),
            ),
        );
        proof {
            if old(disk).reliable() || w is Ok {
                assert(disk@ =~= splice(img, addr as int, e.encode()));
            }
        }
        w
    }

    /// The name as text: what `String::from_utf8_lossy` makes of its bytes. Of a
    /// name that is valid UTF-8 this is the text that it encodes, so an entry made
    /// by `create` gives back the name that it was made with.
    pub fn get_name(&self) -> (text: String)
        ensures
            text@ == utf8_lossy(self@.name),
            valid_utf8(self@.name) ==> text@ == decode_utf8(self@.name),
            forall|name: Seq<char>| self@.name == #[trigger] encode_utf8(name) ==> text@ == name,
    {
        let text = string_from_utf8_lossy(
            slice_subrange(array_as_slice(&self.name), 0, self.name_size as usize),
        );
        proof {
            assert forall|name: Seq<char>| self@.name == #[trigger] encode_utf8(name) implies text@
                == name by {
                encode_utf8_valid_utf8(name);
                encode_utf8_decode_utf8(name);
            }
        }
        text
    }
}

/// A walk over the entries of a directory. It holds the directory's inode as it
/// was when the walk began, and the position of the entry that comes next.
pub struct DirectoryIterator {
    pub next_off: u32,
    pub next_blk: u32,
    pub inode: Inode,
}

impl DirectoryIterator {
    /// The position is one at which an entry can start.
    pub open spec fn wf(self) -> bool {
        self.next_off <= 3836
    }

    /// The entries that the walk has yet to yield, on a reliable device that
    /// holds `img`.
    pub open spec fn remaining(self, img: Seq<u8>) -> Seq<Entry> {
        listing(self.inode, img, self.next_blk, self.next_off)
    }

    /// A walk from the first entry of the directory `inode` on.
    pub fn new(inode: Inode) -> (it: Self)
        ensures
            it == (DirectoryIterator { next_off: 0, next_blk: 0, inode }),
            it.wf(),
    {
        DirectoryIterator { next_blk: 0, next_off: 0, inode }
    }

    /// The next entry of the directory on `fs`, or none where the walk has come
    /// to the end. A walk that stands beyond the blocks that an inode can have
    /// stays there.
    pub fn next<D: IO>(&mut self, fs: &mut FileSystem<D>) -> (r: Option<DirEntry>)
        requires
            old(self).wf(),
        ensures
            final(self).wf(),
            final(self).inode == old(self).inode,
            final(fs)@ == old(fs)@,
            final(fs).reliable() == old(fs).reliable(),
            old(self).next_blk >= MAX_BLOCKS ==> r is None && *final(self) == *old(self),
            old(fs).reliable() ==> match r {
                Some(e) => old(self).remaining(old(fs)@.image) == seq![e@] + final(self).remaining(
                    old(fs)@.image,
                ),
                None => old(self).remaining(old(fs)@.image) == Seq::<Entry>::empty(),
            },
    {
        loop
            invariant
                self.wf(),
                self.inode == old(self).inode,
                fs@ == old(fs)@,
                fs.reliable() == old(fs).reliable(),
                fs.reliable() ==> old(self).remaining(fs@.image) == self.remaining(fs@.image),
                old(self).next_blk >= MAX_BLOCKS ==> *self == *old(self),
            decreases MAX_BLOCKS - self.next_blk, 4096 - self.next_off,
        {
            if self.next_blk >= MAX_BLOCKS {
                return None;
            }
            let dir_entry = match DirEntry::read_from_disk(
                &mut self.inode,
                fs,
                self.next_blk as u64 * 4096 + self.next_off as u64,
            ) {
                Ok(e) => e,
                Err(_) => {
                    return None;
                },
            };
            assert(dir_entry@.name.len() == dir_entry.name_size);
            self.next_off += dir_entry.get_size();
            if self.next_off > DIRENTRY_LAST_OFFSET {
                self.next_off = 0;
                self.next_blk += 1;
            }
            if !dir_entry.is_empty() {
                return Some(dir_entry);
            }
        }
    }
}

} // verus!
