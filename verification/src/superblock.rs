//! The superblock: the filesystem's header, stored in block 1.

use crate::codec::{get_u32, get_u64, le_bytes, le_u32, le_u64, put_u32, put_u64, span};
use crate::codec::{lemma_le_u32_round_trip, lemma_le_u64_round_trip};
use crate::disk::{in_range, Disk, DiskError, IO};
use crate::fs::{lift, FsError};
use crate::std_calls::{clock_now, since_epoch, string_push, whole_seconds};
use vstd::prelude::*;
use vstd::string::StringSliceAdditionalSpecFns;

verus! {

/// The filesystem's header. `earliest_free` is the smallest block known to be
/// free, or zero where none is; `earliest_inode_space` the first slot of the inode
/// block that was allocated last, or zero where none is known.
#[derive(Debug, Clone, Copy)]
pub struct Superblock {
    pub signature: [u8; 8],
    pub earliest_free: u32,
    pub earliest_inode_space: u32,
    pub last_free: u32,
    pub total_unused: u32,
    pub total_blocks: u32,
    pub last_mount: u64,
    pub last_write: u64,
    pub name: [u8; 32],
    pub file_prealloc: u8,
    pub dir_prealloc: u8,
    pub root_inode: u32,
}

/// The signature `SFs sblk`.
pub const SUPERBLOCK_SIGNATURE_SFS: [u8; 8] = [0x53, 0x46, 0x73, 0x20, 0x73, 0x62, 0x6c, 0x6b];

/// The number of bytes that a stored superblock takes: its fields one after the
/// other, integers in little-endian form.
pub const SUPERBLOCK_SIZE: usize = 82;

/// Byte `i` of `s`, or zero past its end.
pub open spec fn byte_or_zero(s: Seq<u8>, i: int) -> u8 {
    if 0 <= i < s.len() {
        s[i]
    } else {
        0
    }
}

/// The first eight bytes of `s`, as a signature field.
pub open spec fn signature_field(s: Seq<u8>) -> [u8; 8] {
    [s[0], s[1], s[2], s[3], s[4], s[5], s[6], s[7]]
}

/// The first 32 bytes of `s`, with zeros where `s` is shorter, as a name field.
pub open spec fn name_field(s: Seq<u8>) -> [u8; 32] {
    [
        byte_or_zero(s, 0),
        byte_or_zero(s, 1),
        byte_or_zero(s, 2),
        byte_or_zero(s, 3),
        byte_or_zero(s, 4),
        byte_or_zero(s, 5),
        byte_or_zero(s, 6),
        byte_or_zero(s, 7),
        byte_or_zero(s, 8),
        byte_or_zero(s, 9),
        byte_or_zero(s, 10),
        byte_or_zero(s, 11),
        byte_or_zero(s, 12),
        byte_or_zero(s, 13),
        byte_or_zero(s, 14),
        byte_or_zero(s, 15),
        byte_or_zero(s, 16),
        byte_or_zero(s, 17),
        byte_or_zero(s, 18),
        byte_or_zero(s, 19),
        byte_or_zero(s, 20),
        byte_or_zero(s, 21),
        byte_or_zero(s, 22),
        byte_or_zero(s, 23),
        byte_or_zero(s, 24),
        byte_or_zero(s, 25),
        byte_or_zero(s, 26),
        byte_or_zero(s, 27),
        byte_or_zero(s, 28),
        byte_or_zero(s, 29),
        byte_or_zero(s, 30),
        byte_or_zero(s, 31),
    ]
}

/// The bytes of `name` before its first zero byte, each as the character with that
/// code.
pub open spec fn name_text(name: Seq<u8>) -> Seq<char>
    decreases name.len(),
{
    if name.len() == 0 || name[0] == 0 {
        Seq::empty()
    } else {
        seq![name[0] as char] + name_text(name.drop_first())
    }
}

/// The number of segments that `num_blocks` blocks take.
pub open spec fn segments(num_blocks: u32) -> int {
    (num_blocks + 16383) / 16384
}

/// The time in whole seconds since the Unix epoch. A clock that stands before the
/// epoch counts as standing at it.
pub(crate) fn unix_time() -> u64 {
    let now = clock_now();
    match since_epoch(&now) {
        Ok(d) => whole_seconds(&d),
        Err(_) => 0,
    }
}

impl Superblock {
    /// Whether the signature is the filesystem's.
    pub open spec fn signed(self) -> bool {
        self.signature@ == SUPERBLOCK_SIGNATURE_SFS@
    }

    /// Whether the signature is the filesystem's.
    pub fn has_signature(&self) -> (b: bool)
        ensures
            b == self.signed(),
    {
        let mut i: usize = 0;
        while i < 8
            invariant
                i <= 8,
                forall|k: int| 0 <= k < i ==> self.signature@[k] == SUPERBLOCK_SIGNATURE_SFS@[k],
            decreases 8 - i,
        {
            if self.signature[i] != SUPERBLOCK_SIGNATURE_SFS[i] {
                return false;
            }
            i += 1;
        }
        assert(self.signature@ =~= SUPERBLOCK_SIGNATURE_SFS@);
        true
    }

    /// The superblock of a new filesystem of `num_blocks` blocks, named by the
    /// bytes `name`, made at time `now`.
    pub open spec fn fresh(name: Seq<u8>, num_blocks: u32, now: u64) -> Superblock {
        Superblock {
            signature: SUPERBLOCK_SIGNATURE_SFS,
            earliest_free: 2,
            earliest_inode_space: 0,
            last_free: (num_blocks - 1) as u32,
            total_unused: (num_blocks - 1 - segments(num_blocks)) as u32,
            total_blocks: num_blocks,
            last_mount: now,
            last_write: now,
            name: name_field(name),
            file_prealloc: 1,
            dir_prealloc: 1,
            root_inode: 0,
        }
    }

    /// The superblock of a new filesystem of `num_blocks` blocks with the name
    /// `name`, made at time `now`. Fails where the name has more than 32 bytes.
    pub fn new_at(name: &str, num_blocks: u32, now: u64) -> (r: Result<Self, FsError>)
        requires
            num_blocks >= 2,
        ensures
            r == if name.spec_bytes().len() > 32 {
                Err::<Superblock, FsError>(FsError::NameTooLong)
            } else {
                Ok::<Superblock, FsError>(Superblock::fresh(name.spec_bytes(), num_blocks, now))
            },
    {
        let bytes = name.as_bytes();
        if bytes.len() > 32 {
            return Err(FsError::NameTooLong);
        }
        let mut name_slice: [u8; 32] = [0u8; 32];
        let mut i: usize = 0;
        while i < bytes.len()
            invariant
                i <= bytes@.len() <= 32,
                forall|k: int| 0 <= k < i ==> name_slice@[k] == bytes@[k],
                forall|k: int| i <= k < 32 ==> name_slice@[k] == 0,
            decreases bytes@.len() - i,
        {
            name_slice[i] = bytes[i];
            i += 1;
        }
        assert(name_slice =~= name_field(bytes@));
        Ok(
            Superblock {
                signature: SUPERBLOCK_SIGNATURE_SFS,
                earliest_free: 2,
                earliest_inode_space: 0,
                last_free: num_blocks - 1,
                total_unused: num_blocks - 1 - (num_blocks - 1) / 16384 - 1,
                total_blocks: num_blocks,
                last_mount: now,
                last_write: now,
                name: name_slice,
                file_prealloc: 1,
                dir_prealloc: 1,
                root_inode: 0,
            },
        )
    }

    /// The superblock of a new filesystem of `num_blocks` blocks with the name
    /// `name`, made now. Fails where the name has more than 32 bytes. The time is
    /// that of the system clock in seconds since the Unix epoch, of which nothing
    /// is known; a clock that stands before the epoch counts as standing at it.
    pub fn new(name: &str, num_blocks: u32) -> (r: Result<Self, FsError>)
        requires
            num_blocks >= 2,
        ensures
            name.spec_bytes().len() > 32 ==> r == Err::<Superblock, FsError>(FsError::NameTooLong),
            name.spec_bytes().len() <= 32 ==> r is Ok && r->Ok_0 == Superblock::fresh(
                name.spec_bytes(),
                num_blocks,
                r->Ok_0.last_mount,
            ),
    {
        Superblock::new_at(name, num_blocks, unix_time())
    }

    /// The number of blocks in use.
    pub fn total_used(&self) -> (used: u32)
        requires
            self.total_unused <= self.total_blocks,
        ensures
            used == self.total_blocks - self.total_unused,
    {
        self.total_blocks - self.total_unused
    }

    /// The name: the bytes of the name field before its first zero byte, each as the
    /// character with that code.
    pub fn get_name(&self) -> (text: String)
        ensures
            text@ == name_text(self.name@),
    {
        let mut text = String::new();
        let mut i: usize = 0;
        assert(self.name@.skip(0) =~= self.name@);
        while i < 32 && self.name[i] != 0
            invariant
                i <= 32,
                name_text(self.name@) == text@ + name_text(self.name@.skip(i as int)),
            decreases 32 - i,
        {
            proof {
                let rest = self.name@.skip(i as int);
                assert(rest.drop_first() =~= self.name@.skip(i + 1));
                assert(text@ + (seq![rest[0] as char] + name_text(rest.drop_first())) =~= text@.push(
                    rest[0] as char,
                ) + name_text(rest.drop_first()));
            }
            string_push(&mut text, self.name[i] as char);
            i += 1;
        }
        assert(name_text(self.name@.skip(i as int)) =~= Seq::<char>::empty());
        text
    }

    /// The stored form: 82 bytes.
    #[verifier::opaque]
    pub open spec fn encode(self) -> Seq<u8> {
        self.signature@ + le_bytes(self.earliest_free as int, 4) + le_bytes(
            self.earliest_inode_space as int,
            4,
        ) + le_bytes(self.last_free as int, 4) + le_bytes(self.total_unused as int, 4) + le_bytes(
            self.total_blocks as int,
            4,
        ) + le_bytes(self.last_mount as int, 8) + le_bytes(self.last_write as int, 8) + self.name@
            + seq![self.file_prealloc, self.dir_prealloc] + le_bytes(self.root_inode as int, 4)
    }

    /// The superblock whose stored form `s` starts with.
    #[verifier::opaque]
    pub open spec fn decode(s: Seq<u8>) -> Superblock {
        Superblock {
            signature: signature_field(s),
            earliest_free: le_u32(s, 8),
            earliest_inode_space: le_u32(s, 12),
            last_free: le_u32(s, 16),
            total_unused: le_u32(s, 20),
            total_blocks: le_u32(s, 24),
            last_mount: le_u64(s, 28),
            last_write: le_u64(s, 36),
            name: name_field(s.subrange(44, 76)),
            file_prealloc: s[76],
            dir_prealloc: s[77],
            root_inode: le_u32(s, 78),
        }
    }

    /// Decoding the stored form of a superblock gives the superblock back.
    pub proof fn lemma_round_trip(self)
        ensures
            self.encode().len() == 82,
            Superblock::decode(self.encode()) == self,
    {
        reveal(Superblock::encode);
        reveal(Superblock::decode);
        let s = self.encode();
        let d = Superblock::decode(s);
        assert(s.len() == 82);
        assert(s.subrange(0, 8) =~= self.signature@);
        assert(s.subrange(8, 12) =~= le_bytes(self.earliest_free as int, 4));
        assert(s.subrange(12, 16) =~= le_bytes(self.earliest_inode_space as int, 4));
        assert(s.subrange(16, 20) =~= le_bytes(self.last_free as int, 4));
        assert(s.subrange(20, 24) =~= le_bytes(self.total_unused as int, 4));
        assert(s.subrange(24, 28) =~= le_bytes(self.total_blocks as int, 4));
        assert(s.subrange(28, 36) =~= le_bytes(self.last_mount as int, 8));
        assert(s.subrange(36, 44) =~= le_bytes(self.last_write as int, 8));
        assert(s.subrange(44, 76) =~= self.name@);
        assert(s[76] == self.file_prealloc && s[77] == self.dir_prealloc);
        assert(s.subrange(78, 82) =~= le_bytes(self.root_inode as int, 4));
        lemma_le_u32_round_trip(s, 8, self.earliest_free);
        lemma_le_u32_round_trip(s, 12, self.earliest_inode_space);
        lemma_le_u32_round_trip(s, 16, self.last_free);
        lemma_le_u32_round_trip(s, 20, self.total_unused);
        lemma_le_u32_round_trip(s, 24, self.total_blocks);
        lemma_le_u64_round_trip(s, 28, self.last_mount);
        lemma_le_u64_round_trip(s, 36, self.last_write);
        lemma_le_u32_round_trip(s, 78, self.root_inode);
        assert(d.signature =~= self.signature) by {
            assert forall|k: int| 0 <= k < 8 implies d.signature@[k] == self.signature@[k] by {
                assert(s.subrange(0, 8)[k] == s[k]);
            }
        }
        assert(d.name =~= self.name) by {
            assert forall|k: int| 0 <= k < 32 implies d.name@[k] == self.name@[k] by {
                assert(s.subrange(44, 76)[k] == self.name@[k]);
            }
        }
    }

    /// The stored form of the superblock.
    pub fn to_bytes(&self) -> (out: Vec<u8>)
        ensures
            out@ == self.encode(),
            out@.len() == 82,
    {
        reveal(Superblock::encode);
        let mut out: Vec<u8> = Vec::new();
        let mut i: usize = 0;
        while i < 8
            invariant
                i <= 8,
                out@ == self.signature@.take(i as int),
            decreases 8 - i,
        {
            out.push(self.signature[i]);
            i += 1;
            assert(out@ =~= self.signature@.take(i as int));
        }
        assert(out@ =~= self.signature@);
        put_u32(&mut out, self.earliest_free);
        put_u32(&mut out, self.earliest_inode_space);
        put_u32(&mut out, self.last_free);
        put_u32(&mut out, self.total_unused);
        put_u32(&mut out, self.total_blocks);
        put_u64(&mut out, self.last_mount);
        put_u64(&mut out, self.last_write);
        let ghost head = out@;
        let mut i: usize = 0;
        while i < 32
            invariant
                i <= 32,
                out@ == head + self.name@.take(i as int),
            decreases 32 - i,
        {
            out.push(self.name[i]);
            i += 1;
            assert(out@ =~= head + self.name@.take(i as int));
        }
        assert(out@ =~= head + self.name@);
        out.push(self.file_prealloc);
        out.push(self.dir_prealloc);
        assert(out@ =~= head + self.name@ + seq![self.file_prealloc, self.dir_prealloc]);
        put_u32(&mut out, self.root_inode);
        out
    }

    /// The superblock whose stored form `bytes` starts with.
    pub fn from_bytes(bytes: &[u8]) -> (sb: Superblock)
        requires
            bytes@.len() >= 82,
        ensures
            sb == Superblock::decode(bytes@),
    {
        reveal(Superblock::decode);
        let mut signature: [u8; 8] = [0u8; 8];
        let mut i: usize = 0;
        while i < 8
            invariant
                i <= 8,
                bytes@.len() >= 82,
                forall|k: int| 0 <= k < i ==> signature@[k] == bytes@[k],
            decreases 8 - i,
        {
            signature[i] = bytes[i];
            i += 1;
        }
        let mut name: [u8; 32] = [0u8; 32];
        let mut i: usize = 0;
        while i < 32
            invariant
                i <= 32,
                bytes@.len() >= 82,
                forall|k: int| 0 <= k < i ==> name@[k] == bytes@[44 + k],
            decreases 32 - i,
        {
            name[i] = bytes[44 + i];
            i += 1;
        }
        assert(signature =~= signature_field(bytes@));
        assert(name =~= name_field(bytes@.subrange(44, 76)));
        Superblock {
            signature,
            earliest_free: get_u32(bytes, 8),
            earliest_inode_space: get_u32(bytes, 12),
            last_free: get_u32(bytes, 16),
            total_unused: get_u32(bytes, 20),
            total_blocks: get_u32(bytes, 24),
            last_mount: get_u64(bytes, 28),
            last_write: get_u64(bytes, 36),
            name,
            file_prealloc: bytes[76],
            dir_prealloc: bytes[77],
            root_inode: get_u32(bytes, 78),
        }
    }

    /// What reading a superblock at `addr` of a reliable device that holds `img`
    /// gives: the superblock stored there, where its signature is the filesystem's.
    pub open spec fn stored_at(img: Seq<u8>, addr: u64) -> Result<Superblock, FsError> {
        if !in_range(img.len(), addr, 82) {
            Err(FsError::DiskError(DiskError::NotEnoughSpace))
        } else if !Superblock::decode(span(img, addr as int, 82)).signed() {
            Err(FsError::InvalidSignature)
        } else {
            Ok(Superblock::decode(span(img, addr as int, 82)))
        }
    }

    /// Reads the superblock stored at `addr`, and checks its signature.
    pub fn read<D: IO>(disk: &mut Disk<D>, addr: u64) -> (r: Result<Self, FsError>)
        ensures
            final(disk)@ == old(disk)@,
            final(disk).reliable() == old(disk).reliable(),
            old(disk).reliable() || !(r matches Err(FsError::DiskError(_))) ==> r
                == Superblock::stored_at(old(disk)@, addr),
    {
        let bytes = lift(disk.read_bytes(addr, SUPERBLOCK_SIZE))?;
        let sblk = Superblock::from_bytes(bytes.as_slice());
        if !sblk.has_signature() {
            return Err(FsError::InvalidSignature);
        }
        Ok(sblk)
    }
}

} // verus!
