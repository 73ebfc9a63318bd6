//! Inodes: the 128-byte records that describe files and directories, and the tree
//! of blocks that an inode refers to.

use crate::codec::{copy_into, put_u16, put_u32, put_u64, span, splice, zeros};
use crate::codec::{get_u16, get_u32, get_u64, le_byte, le_bytes, le_u16, le_u32, le_u64};
use crate::codec::{lemma_le_u16_round_trip, lemma_le_u32_round_trip, lemma_le_u64_round_trip};
use crate::directory::{position_after, DirEntry, Entry, DIRENTRY_LAST_OFFSET};
use crate::disk::{transfer_len, Disk, DiskError, IO};
use crate::fs::{lift, FileSystem, FsError, FsState};
use crate::superblock::Superblock;
use vstd::prelude::*;
use vstd::slice::slice_subrange;

verus! {

/// What an inode stands for. A type that is none of the known ones holds its
/// code.
#[derive(Debug, PartialEq, Eq, Structural)]
pub enum InodeType {
    FiFo,
    CharacterDevice,
    Directory,
    BlockDevice,
    File,
    Socket,
    Unknown(u16),
}

impl InodeType {
    /// The type's code: the high four bits of an inode's first field. An unknown
    /// type holds its code.
    pub open spec fn code(self) -> u16 {
        match self {
            InodeType::FiFo => 0x1000,
            InodeType::CharacterDevice => 0x2000,
            InodeType::Directory => 0x4000,
            InodeType::BlockDevice => 0x6000,
            InodeType::File => 0x8000,
            InodeType::Socket => 0xa000,
            InodeType::Unknown(other) => other,
        }
    }

    /// The type with the given high four bits; the low twelve bits must be clear.
    pub open spec fn of_code(code: u16) -> InodeType {
        if code == 0x1000 {
            InodeType::FiFo
        } else if code == 0x2000 {
            InodeType::CharacterDevice
        } else if code == 0x4000 {
            InodeType::Directory
        } else if code == 0x6000 {
            InodeType::BlockDevice
        } else if code == 0x8000 {
            InodeType::File
        } else if code == 0xa000 {
            InodeType::Socket
        } else {
            InodeType::Unknown(code)
        }
    }

    /// The type's code.
    pub fn as_u16(&self) -> (code: u16)
        ensures
            code == self.code(),
    {
        match self {
            InodeType::FiFo => 0x1000,
            InodeType::CharacterDevice => 0x2000,
            InodeType::Directory => 0x4000,
            InodeType::BlockDevice => 0x6000,
            InodeType::File => 0x8000,
            InodeType::Socket => 0xa000,
            InodeType::Unknown(other) => *other,
        }
    }
}

/// A permission bit of an inode, or several of them together.
pub enum Permission {
    OtherExecute,
    OtherWrite,
    OtherRead,
    GroupExecute,
    GroupWrite,
    GroupRead,
    UserExecute,
    UserWrite,
    UserRead,
    Sticky,
    SetGid,
    SetUid,
    Other(u16),
}

impl Permission {
    /// The permission's bits in an inode's first field.
    pub open spec fn bits(self) -> u16 {
        match self {
            Permission::OtherExecute => 0o0001,
            Permission::OtherWrite => 0o0002,
            Permission::OtherRead => 0o0004,
            Permission::GroupExecute => 0o0010,
            Permission::GroupWrite => 0o0020,
            Permission::GroupRead => 0o0040,
            Permission::UserExecute => 0o0100,
            Permission::UserWrite => 0o0200,
            Permission::UserRead => 0o0400,
            Permission::Sticky => 0o1000,
            Permission::SetGid => 0o2000,
            Permission::SetUid => 0o4000,
            Permission::Other(o) => o,
        }
    }

    /// The permission's bits.
    pub fn as_u16(&self) -> (bits: u16)
        ensures
            bits == self.bits(),
    {
        match self {
            Permission::OtherExecute => 0o0001,
            Permission::OtherWrite => 0o0002,
            Permission::OtherRead => 0o0004,
            Permission::GroupExecute => 0o0010,
            Permission::GroupWrite => 0o0020,
            Permission::GroupRead => 0o0040,
            Permission::UserExecute => 0o0100,
            Permission::UserWrite => 0o0200,
            Permission::UserRead => 0o0400,
            Permission::Sticky => 0o1000,
            Permission::SetGid => 0o2000,
            Permission::SetUid => 0o4000,
            Permission::Other(o) => *o,
        }
    }

    /// Read, write and execute for others.
    pub fn other_all() -> (p: Self)
        ensures
            p == Permission::Other(0o0007),
    {
        Permission::Other(0o0007)
    }

    /// Read, write and execute for the user.
    pub fn user_all() -> (p: Self)
        ensures
            p == Permission::Other(0o0700),
    {
        Permission::Other(0o0700)
    }

    /// Read, write and execute for the group.
    pub fn group_all() -> (p: Self)
        ensures
            p == Permission::Other(0o0070),
    {
        Permission::Other(0o0070)
    }

    /// Read and write for the user.
    pub fn user_rw() -> (p: Self)
        ensures
            p == Permission::Other(0o0600),
    {
        Permission::Other(0o0600)
    }

    /// Read and write for the group.
    pub fn group_rw() -> (p: Self)
        ensures
            p == Permission::Other(0o0060),
    {
        Permission::Other(0o0060)
    }
}

/// The bits of all of `perms` together.
pub open spec fn union_bits(perms: Seq<Permission>) -> u16
    decreases perms.len(),
{
    if perms.len() == 0 {
        0
    } else {
        union_bits(perms.drop_last()) | perms.last().bits()
    }
}

/// An inode's first field: the type in the high four bits, the permissions in the
/// low twelve.
#[derive(Debug, Clone, Copy)]
pub struct PermissionsAndType(pub u16);

impl PermissionsAndType {
    /// The field for the type `typ` with the permissions `perms`.
    pub fn new(typ: InodeType, perms: &[Permission]) -> (pt: Self)
        ensures
            pt.0 == typ.code() | union_bits(perms@),
    {
        let mut inner = typ.as_u16();
        let mut i: usize = 0;
        proof {
            let t = typ.code();
            assert(perms@.take(0).len() == 0);
            assert(t | 0u16 == t) by (bit_vector);
        }
        while i < perms.len()
            invariant
                i <= perms@.len(),
                inner == typ.code() | union_bits(perms@.take(i as int)),
            decreases perms@.len() - i,
        {
            proof {
                let t = typ.code();
                let u = union_bits(perms@.take(i as int));
                let p = perms@[i as int].bits();
                assert(perms@.take(i + 1).drop_last() =~= perms@.take(i as int));
                assert((t | u) | p == t | (u | p)) by (bit_vector);
            }
            inner = inner | perms[i].as_u16();
            i += 1;
        }
        assert(perms@.take(i as int) =~= perms@);
        PermissionsAndType(inner)
    }

    /// The field as it is stored.
    pub fn get_raw(&self) -> (raw: u16)
        ensures
            raw == self.0,
    {
        self.0
    }

    /// The type that the high four bits name.
    pub open spec fn inode_type(self) -> InodeType {
        InodeType::of_code(self.0 & 0xf000)
    }

    /// The type that the high four bits name.
    pub fn get_type(&self) -> (typ: InodeType)
        ensures
            typ == self.inode_type(),
    {
        let code = self.0 & 0xf000;
        if code == 0x1000 {
            InodeType::FiFo
        } else if code == 0x2000 {
            InodeType::CharacterDevice
        } else if code == 0x4000 {
            InodeType::Directory
        } else if code == 0x6000 {
            InodeType::BlockDevice
        } else if code == 0x8000 {
            InodeType::File
        } else if code == 0xa000 {
            InodeType::Socket
        } else {
            InodeType::Unknown(code)
        }
    }

    /// Whether any of the permission's bits is set.
    pub fn get_permission(&self, permission: Permission) -> (held: bool)
        ensures
            held == (self.0 & permission.bits() != 0),
    {
        (self.0 & permission.as_u16()) != 0
    }

    /// Sets all of the permission's bits, or clears them.
    pub fn set_permission(&mut self, permission: Permission, value: bool)
        ensures
            final(self).0 == if value {
                old(self).0 | permission.bits()
            } else {
                old(self).0 & !permission.bits()
            },
    {
        if value {
            self.0 = self.0 | permission.as_u16();
        } else {
            self.0 = self.0 & !permission.as_u16();
        }
    }
}

/// A permission that was set is held, if it has any bit; one that was cleared is
/// not held.
pub proof fn lemma_permission_set_then_get(raw: u16, bits: u16)
    ensures
        bits != 0 ==> (raw | bits) & bits != 0,
        (raw & !bits) & bits == 0,
{
    assert(bits != 0 ==> (raw | bits) & bits != 0) by (bit_vector);
    assert((raw & !bits) & bits == 0) by (bit_vector);
}

/// An inode: what a file or directory is, and where its content lies. `meta` is,
/// for a file, the length of its content modulo 4096.
#[derive(Debug, Clone, Copy)]
pub struct Inode {
    pub type_and_permission: PermissionsAndType,
    pub uid: u16,
    pub gid: u16,
    pub modification_time: u64,
    pub creation_time: u64,
    pub hardlinks: u16,
    pub block_pointers: [u32; 10],
    pub singly_indirect_block_pointer: u32,
    pub doubly_indirect_block_pointer: u32,
    pub meta: u32,
}

/// The stored form of ten block pointers: 40 bytes.
pub open spec fn pointer_bytes(pointers: Seq<u32>) -> Seq<u8> {
    Seq::new(40, |i: int| le_byte(pointers[i / 4] as int, i % 4))
}

impl Inode {
    /// An inode that refers to no block.
    pub fn create(
        type_and_permission: PermissionsAndType,
        uid: u16,
        gid: u16,
        now: u64,
        hardlinks: u16,
        meta_data: u32,
    ) -> (inode: Self)
        ensures
            inode == (Inode {
                type_and_permission,
                uid,
                gid,
                modification_time: now,
                creation_time: now,
                hardlinks,
                block_pointers: [0u32, 0u32, 0u32, 0u32, 0u32, 0u32, 0u32, 0u32, 0u32, 0u32],
                singly_indirect_block_pointer: 0,
                doubly_indirect_block_pointer: 0,
                meta: meta_data,
            }),
    {
        let block_pointers: [u32; 10] = [0u32; 10];
        assert(block_pointers =~= [0u32, 0u32, 0u32, 0u32, 0u32, 0u32, 0u32, 0u32, 0u32, 0u32]);
        Inode {
            block_pointers,
            doubly_indirect_block_pointer: 0,
            singly_indirect_block_pointer: 0,
            creation_time: now,
            modification_time: now,
            meta: meta_data,
            gid,
            uid,
            hardlinks,
            type_and_permission,
        }
    }

    /// The stored form: 128 bytes, the fields one after the other, integers in
    /// little-endian form, and zeros from byte 76 on.
    #[verifier::opaque]
    pub open spec fn encode(self) -> Seq<u8> {
        le_bytes(self.type_and_permission.0 as int, 2) + le_bytes(self.uid as int, 2) + le_bytes(
            self.gid as int,
            2,
        ) + le_bytes(self.modification_time as int, 8) + le_bytes(self.creation_time as int, 8)
            + le_bytes(self.hardlinks as int, 2) + pointer_bytes(self.block_pointers@) + le_bytes(
            self.singly_indirect_block_pointer as int,
            4,
        ) + le_bytes(self.doubly_indirect_block_pointer as int, 4) + le_bytes(self.meta as int, 4)
            + zeros(52)
    }

    /// The inode whose stored form `s` starts with.
    #[verifier::opaque]
    pub open spec fn decode(s: Seq<u8>) -> Inode {
        Inode {
            type_and_permission: PermissionsAndType(le_u16(s, 0)),
            uid: le_u16(s, 2),
            gid: le_u16(s, 4),
            modification_time: le_u64(s, 6),
            creation_time: le_u64(s, 14),
            hardlinks: le_u16(s, 22),
            block_pointers: [
                le_u32(s, 24),
                le_u32(s, 28),
                le_u32(s, 32),
                le_u32(s, 36),
                le_u32(s, 40),
                le_u32(s, 44),
                le_u32(s, 48),
                le_u32(s, 52),
                le_u32(s, 56),
                le_u32(s, 60),
            ],
            singly_indirect_block_pointer: le_u32(s, 64),
            doubly_indirect_block_pointer: le_u32(s, 68),
            meta: le_u32(s, 72),
        }
    }

    /// Decoding the stored form of an inode gives the inode back.
    pub proof fn lemma_round_trip(self)
        ensures
            self.encode().len() == 128,
            Inode::decode(self.encode()) == self,
    {
        reveal(Inode::encode);
        reveal(Inode::decode);
        let s = self.encode();
        let d = Inode::decode(s);
        assert(s.len() == 128);
        assert(s.subrange(0, 2) =~= le_bytes(self.type_and_permission.0 as int, 2));
        assert(s.subrange(2, 4) =~= le_bytes(self.uid as int, 2));
        assert(s.subrange(4, 6) =~= le_bytes(self.gid as int, 2));
        assert(s.subrange(6, 14) =~= le_bytes(self.modification_time as int, 8));
        assert(s.subrange(14, 22) =~= le_bytes(self.creation_time as int, 8));
        assert(s.subrange(22, 24) =~= le_bytes(self.hardlinks as int, 2));
        assert(s.subrange(24, 64) =~= pointer_bytes(self.block_pointers@));
        assert(s.subrange(64, 68) =~= le_bytes(self.singly_indirect_block_pointer as int, 4));
        assert(s.subrange(68, 72) =~= le_bytes(self.doubly_indirect_block_pointer as int, 4));
        assert(s.subrange(72, 76) =~= le_bytes(self.meta as int, 4));
        lemma_le_u16_round_trip(s, 0, self.type_and_permission.0);
        lemma_le_u16_round_trip(s, 2, self.uid);
        lemma_le_u16_round_trip(s, 4, self.gid);
        lemma_le_u64_round_trip(s, 6, self.modification_time);
        lemma_le_u64_round_trip(s, 14, self.creation_time);
        lemma_le_u16_round_trip(s, 22, self.hardlinks);
        lemma_le_u32_round_trip(s, 64, self.singly_indirect_block_pointer);
        lemma_le_u32_round_trip(s, 68, self.doubly_indirect_block_pointer);
        lemma_le_u32_round_trip(s, 72, self.meta);
        assert forall|k: int| 0 <= k < 10 implies d.block_pointers@[k] == self.block_pointers@[k] by {
            assert(s.subrange(24 + 4 * k, 24 + 4 * k + 4) =~= le_bytes(
                self.block_pointers@[k] as int,
                4,
            )) by {
                assert forall|j: int| 0 <= j < 4 implies s.subrange(24 + 4 * k, 24 + 4 * k + 4)[j]
                    == le_byte(self.block_pointers@[k] as int, j) by {
                    assert(s.subrange(24, 64)[4 * k + j] == s[24 + 4 * k + j]);
                }
            }
            lemma_le_u32_round_trip(s, 24 + 4 * k, self.block_pointers@[k]);
        }
        assert(d.block_pointers =~= self.block_pointers);
    }

    /// The stored form of the inode.
    pub fn to_bytes(&self) -> (out: Vec<u8>)
        ensures
            out@ == self.encode(),
            out@.len() == 128,
    {
        reveal(Inode::encode);
        let mut out: Vec<u8> = Vec::new();
        put_u16(&mut out, self.type_and_permission.0);
        put_u16(&mut out, self.uid);
        put_u16(&mut out, self.gid);
        put_u64(&mut out, self.modification_time);
        put_u64(&mut out, self.creation_time);
        put_u16(&mut out, self.hardlinks);
        let ghost head = out@;
        let mut i: usize = 0;
        while i < 10
            invariant
                i <= 10,
                out@ == head + pointer_bytes(self.block_pointers@).take(4 * i),
            decreases 10 - i,
        {
            put_u32(&mut out, self.block_pointers[i]);
            i += 1;
            assert(out@ =~= head + pointer_bytes(self.block_pointers@).take(4 * i));
        }
        assert(pointer_bytes(self.block_pointers@).take(40) =~= pointer_bytes(
            self.block_pointers@,
        ));
        put_u32(&mut out, self.singly_indirect_block_pointer);
        put_u32(&mut out, self.doubly_indirect_block_pointer);
        put_u32(&mut out, self.meta);
        let ghost body = out@;
        let mut i: usize = 0;
        while i < 52
            invariant
                i <= 52,
                out@ == body + zeros(i as nat),
            decreases 52 - i,
        {
            out.push(0u8);
            i += 1;
            assert(out@ =~= body + zeros(i as nat));
        }
        out
    }

    /// The inode whose stored form `bytes` starts with.
    pub fn from_bytes(bytes: &[u8]) -> (inode: Inode)
        requires
            bytes@.len() >= 128,
        ensures
            inode == Inode::decode(bytes@),
    {
        reveal(Inode::decode);
        let mut block_pointers: [u32; 10] = [0u32; 10];
        let mut i: usize = 0;
        while i < 10
            invariant
                i <= 10,
                bytes@.len() >= 128,
                forall|k: int| 0 <= k < i ==> block_pointers@[k] == le_u32(bytes@, 24 + 4 * k),
            decreases 10 - i,
        {
            block_pointers[i] = get_u32(bytes, 24 + 4 * i);
            i += 1;
        }
        assert(block_pointers =~= Inode::decode(bytes@).block_pointers);
        Inode {
            type_and_permission: PermissionsAndType(get_u16(bytes, 0)),
            uid: get_u16(bytes, 2),
            gid: get_u16(bytes, 4),
            modification_time: get_u64(bytes, 6),
            creation_time: get_u64(bytes, 14),
            hardlinks: get_u16(bytes, 22),
            block_pointers,
            singly_indirect_block_pointer: get_u32(bytes, 64),
            doubly_indirect_block_pointer: get_u32(bytes, 68),
            meta: get_u32(bytes, 72),
        }
    }
}

/// The number of blocks that an inode can refer to: ten directly, 1024 through the
/// singly indirect block, and the rest through the doubly indirect block, whose
/// first entry is not used.
pub const MAX_BLOCKS: u32 = 1048586;

/// What reading a 32-bit value at `addr` gives on a reliable device that holds
/// `img`: nothing where it lies outside the device.
pub open spec fn stored_u32(img: Seq<u8>, addr: int) -> Option<u32> {
    if 0 <= addr && addr + 4 <= img.len() {
        Some(le_u32(img, addr))
    } else {
        None
    }
}

/// A block pointer as a reference: zero refers to nothing.
pub open spec fn referent(pointer: Option<u32>) -> Option<u32> {
    match pointer {
        Some(p) => if p == 0 {
            None
        } else {
            Some(p)
        },
        None => None,
    }
}

/// The address of entry `k` of the pointer block `block`.
pub open spec fn entry_addr(block: u32, k: int) -> int {
    block * 4096 + k * 4
}

/// Entry `k` of the pointer block `block`, as a reference.
fn read_pointer<D: IO>(disk: &mut Disk<D>, block: u32, k: u32) -> (r: Option<u32>)
    requires
        k < 1024,
    ensures
        final(disk)@ == old(disk)@,
        final(disk).reliable() == old(disk).reliable(),
        r matches Some(b) ==> r == referent(stored_u32(old(disk)@, entry_addr(block, k as int))),
        old(disk).reliable() ==> r == referent(stored_u32(old(disk)@, entry_addr(block, k as int))),
{
    match disk.read_u32(block as u64 * 4096 + k as u64 * 4) {
        Ok(p) => if p == 0 {
            None
        } else {
            Some(p)
        },
        Err(_) => None,
    }
}

impl Inode {
    /// The block that holds the part of the inode's content with index `index`, on
    /// an image `img`: found directly for the first ten, through the singly indirect
    /// block for the next 1024, through the doubly indirect block for the rest.
    /// There is none where a pointer on the way is zero or lies outside the device.
    pub open spec fn resolve(self, img: Seq<u8>, index: u32) -> Option<u32> {
        if index < 10 {
            referent(Some(self.block_pointers@[index as int]))
        } else if index < 1034 {
            match referent(Some(self.singly_indirect_block_pointer)) {
                None => None,
                Some(singly) => referent(stored_u32(img, entry_addr(singly, index - 10))),
            }
        } else if index < MAX_BLOCKS {
            match referent(Some(self.doubly_indirect_block_pointer)) {
                None => None,
                Some(doubly) => match referent(
                    stored_u32(img, entry_addr(doubly, (index - 10) / 1024)),
                ) {
                    None => None,
                    Some(singly) => referent(
                        stored_u32(img, entry_addr(singly, (index - 10) % 1024)),
                    ),
                },
            }
        } else {
            None
        }
    }

    /// The block that holds the part of the inode's content with index `index`.
    pub fn get_block_id<D: IO>(&self, index: u32, fs: &mut FileSystem<D>) -> (r: Option<u32>)
        ensures
            final(fs)@ == old(fs)@,
            final(fs).reliable() == old(fs).reliable(),
            r matches Some(b) ==> r == self.resolve(old(fs)@.image, index),
            index < 10 || index >= MAX_BLOCKS ==> r == self.resolve(old(fs)@.image, index),
            old(fs).reliable() ==> r == self.resolve(old(fs)@.image, index),
    {
        if index < 10 {
            let p = self.block_pointers[index as usize];
            if p == 0 {
                None
            } else {
                Some(p)
            }
        } else if index < 1034 {
            let singly = self.singly_indirect_block_pointer;
            if singly == 0 {
                return None;
            }
            read_pointer(&mut fs.disk, singly, index - 10)
        } else if index < MAX_BLOCKS {
            let doubly = self.doubly_indirect_block_pointer;
            if doubly == 0 {
                return None;
            }
            match read_pointer(&mut fs.disk, doubly, (index - 10) / 1024) {
                None => None,
                Some(singly) => read_pointer(&mut fs.disk, singly, (index - 10) % 1024),
            }
        } else {
            None
        }
    }

    /// The first index from `from` on at which the inode refers to no block.
    pub open spec fn first_unresolved(self, img: Seq<u8>, from: u32) -> u32
        decreases MAX_BLOCKS - from,
    {
        if from >= MAX_BLOCKS || self.resolve(img, from) is None {
            from
        } else {
            self.first_unresolved(img, (from + 1) as u32)
        }
    }

    /// The first index at which the inode refers to no block.
    fn count_blocks<D: IO>(&self, fs: &mut FileSystem<D>) -> (n: u32)
        ensures
            final(fs)@ == old(fs)@,
            final(fs).reliable() == old(fs).reliable(),
            n <= MAX_BLOCKS,
            old(fs).reliable() ==> n == self.first_unresolved(old(fs)@.image, 0),
    {
        let mut blk_id: u32 = 0;
        while blk_id < MAX_BLOCKS
            invariant
                blk_id <= MAX_BLOCKS,
                fs@ == old(fs)@,
                fs.reliable() == old(fs).reliable(),
                fs.reliable() ==> self.first_unresolved(fs@.image, 0) == self.first_unresolved(
                    fs@.image,
                    blk_id,
                ),
            decreases MAX_BLOCKS - blk_id,
        {
            if self.get_block_id(blk_id, fs).is_none() {
                return blk_id;
            }
            blk_id += 1;
        }
        blk_id
    }
}

impl Inode {
    /// The inode with `block` as its direct pointer `index`.
    pub open spec fn with_pointer(self, index: int, block: u32) -> Inode {
        let p = self.block_pointers@;
        Inode {
            block_pointers: [
                if index == 0 { block } else { p[0] },
                if index == 1 { block } else { p[1] },
                if index == 2 { block } else { p[2] },
                if index == 3 { block } else { p[3] },
                if index == 4 { block } else { p[4] },
                if index == 5 { block } else { p[5] },
                if index == 6 { block } else { p[6] },
                if index == 7 { block } else { p[7] },
                if index == 8 { block } else { p[8] },
                if index == 9 { block } else { p[9] },
            ],
            ..self
        }
    }

    /// The state, inode and result of giving the inode a new block as its direct
    /// pointer `index`, on a reliable device: the block is allocated and the inode
    /// stored in slot `slot`.
    #[verifier::opaque]
    pub open spec fn extend_direct(self, fs: FsState, slot: u32, index: u32) -> (
        FsState,
        Inode,
        Result<u32, FsError>,
    ) {
        let a = fs.allocate(false);
        match a.1 {
            Err(e) => (a.0, self, Err(e)),
            Ok(block) => {
                let inode = self.with_pointer(index as int, block);
                let w = a.0.put_inode(slot, inode);
                (
                    w.0,
                    inode,
                    match w.1 {
                        Ok(_) => Ok(index),
                        Err(e) => Err(e),
                    },
                )
            },
        }
    }

    /// Gives the inode a newly allocated block as its direct pointer `index`.
    fn take_direct_block<D: IO>(&mut self, fs: &mut FileSystem<D>, slot: u32, index: u32) -> (r:
        Result<u32, FsError>)
        requires
            index < 10,
        ensures
            final(fs).reliable() == old(fs).reliable(),
            final(fs)@.image.len() == old(fs)@.image.len(),
            old(fs).reliable() ==> (final(fs)@, *final(self), r) == old(self).extend_direct(
                old(fs)@,
                slot,
                index,
            ),
    {
        reveal(Inode::extend_direct);
        let blk = fs.allocate_block(false)?;
        self.block_pointers[index as usize] = blk;
        assert(self.block_pointers =~= old(self).with_pointer(index as int, blk).block_pointers);
        fs.write_inode(slot, self)?;
        Ok(index)
    }

    /// The state and result of giving the pointer block `table` a new block as its
    /// entry `k`, on a reliable device: the block is allocated and its number
    /// written into the entry.
    #[verifier::opaque]
    pub open spec fn extend_table(fs: FsState, table: u32, k: int) -> (
        FsState,
        Result<u32, FsError>,
    ) {
        let a = fs.allocate(false);
        match a.1 {
            Err(e) => (a.0, Err(e)),
            Ok(block) => {
                let w = a.0.put_u32(entry_addr(table, k), block);
                (
                    w.0,
                    match w.1 {
                        Ok(_) => Ok(block),
                        Err(e) => Err(e),
                    },
                )
            },
        }
    }

    /// Gives the pointer block `table` a newly allocated block as its entry `k`.
    fn take_table_block<D: IO>(fs: &mut FileSystem<D>, table: u32, k: u32) -> (r: Result<
        u32,
        FsError,
    >)
        requires
            k < 1024,
        ensures
            final(fs).reliable() == old(fs).reliable(),
            final(fs)@.image.len() == old(fs)@.image.len(),
            old(fs).reliable() ==> (final(fs)@, r) == Inode::extend_table(old(fs)@, table, k as int),
    {
        reveal(Inode::extend_table);
        let block = fs.allocate_block(false)?;
        lift(fs.disk.write_u32(table as u64 * 4096 + k as u64 * 4, block))?;
        Ok(block)
    }

    /// The state, inode and result of making sure that the inode has a singly
    /// indirect block, on a reliable device: where it has none, one is allocated
    /// and the inode stored in slot `slot`.
    #[verifier::opaque]
    pub open spec fn with_singly_block(self, fs: FsState, slot: u32) -> (
        FsState,
        Inode,
        Result<u32, FsError>,
    ) {
        let a = fs.allocate(false);
        if self.singly_indirect_block_pointer != 0 {
            (fs, self, Ok(self.singly_indirect_block_pointer))
        } else {
            match a.1 {
                Err(e) => (a.0, self, Err(e)),
                Ok(block) => {
                    let inode = Inode { singly_indirect_block_pointer: block, ..self };
                    let w = a.0.put_inode(slot, inode);
                    (
                        w.0,
                        inode,
                        match w.1 {
                            Ok(_) => Ok(block),
                            Err(e) => Err(e),
                        },
                    )
                },
            }
        }
    }

    /// Makes sure that the inode has a singly indirect block.
    fn ensure_singly_block<D: IO>(&mut self, fs: &mut FileSystem<D>, slot: u32) -> (r: Result<
        u32,
        FsError,
    >)
        ensures
            final(fs).reliable() == old(fs).reliable(),
            final(fs)@.image.len() == old(fs)@.image.len(),
            old(fs).reliable() ==> (final(fs)@, *final(self), r) == old(self).with_singly_block(
                old(fs)@,
                slot,
            ),
    {
        reveal(Inode::with_singly_block);
        if self.singly_indirect_block_pointer == 0 {
            self.singly_indirect_block_pointer = fs.allocate_block(false)?;
            fs.write_inode(slot, self)?;
        }
        Ok(self.singly_indirect_block_pointer)
    }

    /// The state, inode and result of making sure that the inode has a doubly
    /// indirect block, on a reliable device: where it has none, one is allocated
    /// and the inode stored in slot `slot`.
    #[verifier::opaque]
    pub open spec fn with_doubly_block(self, fs: FsState, slot: u32) -> (
        FsState,
        Inode,
        Result<u32, FsError>,
    ) {
        let a = fs.allocate(false);
        if self.doubly_indirect_block_pointer != 0 {
            (fs, self, Ok(self.doubly_indirect_block_pointer))
        } else {
            match a.1 {
                Err(e) => (a.0, self, Err(e)),
                Ok(block) => {
                    let inode = Inode { doubly_indirect_block_pointer: block, ..self };
                    let w = a.0.put_inode(slot, inode);
                    (
                        w.0,
                        inode,
                        match w.1 {
                            Ok(_) => Ok(block),
                            Err(e) => Err(e),
                        },
                    )
                },
            }
        }
    }

    /// Makes sure that the inode has a doubly indirect block.
    fn ensure_doubly_block<D: IO>(&mut self, fs: &mut FileSystem<D>, slot: u32) -> (r: Result<
        u32,
        FsError,
    >)
        ensures
            final(fs).reliable() == old(fs).reliable(),
            final(fs)@.image.len() == old(fs)@.image.len(),
            old(fs).reliable() ==> (final(fs)@, *final(self), r) == old(self).with_doubly_block(
                old(fs)@,
                slot,
            ),
    {
        reveal(Inode::with_doubly_block);
        if self.doubly_indirect_block_pointer == 0 {
            self.doubly_indirect_block_pointer = fs.allocate_block(false)?;
            fs.write_inode(slot, self)?;
        }
        Ok(self.doubly_indirect_block_pointer)
    }

    /// The state and result of making sure that entry `k` of the doubly indirect
    /// block `doubly` names a singly indirect block, on a reliable device: where
    /// the entry is zero, a block is allocated and written into it.
    #[verifier::opaque]
    pub open spec fn with_inner_block(fs: FsState, doubly: u32, k: int) -> (
        FsState,
        Result<u32, FsError>,
    ) {
        match stored_u32(fs.image, entry_addr(doubly, k)) {
            None => (fs, Err(FsError::DiskError(DiskError::NotEnoughSpace))),
            Some(p) => if p != 0 {
                (fs, Ok(p))
            } else {
                Inode::extend_table(fs, doubly, k)
            },
        }
    }

    /// Makes sure that entry `k` of the doubly indirect block `doubly` names a
    /// singly indirect block.
    fn ensure_inner_block<D: IO>(fs: &mut FileSystem<D>, doubly: u32, k: u32) -> (r: Result<
        u32,
        FsError,
    >)
        requires
            k < 1024,
        ensures
            final(fs).reliable() == old(fs).reliable(),
            final(fs)@.image.len() == old(fs)@.image.len(),
            old(fs).reliable() ==> (final(fs)@, r) == Inode::with_inner_block(
                old(fs)@,
                doubly,
                k as int,
            ),
    {
        reveal(Inode::with_inner_block);
        let stored = lift(fs.disk.read_u32(doubly as u64 * 4096 + k as u64 * 4))?;
        if stored != 0 {
            Ok(stored)
        } else {
            Inode::take_table_block(fs, doubly, k)
        }
    }

    /// The state, inode and result of `get_next_free_block` on a reliable device:
    /// the first index at which the inode refers to no block gets a newly allocated
    /// block, after the pointer blocks on the way to it were allocated where they
    /// were missing. The result is that index. The first step that fails ends the
    /// operation.
    pub open spec fn extend(self, fs: FsState, slot: u32) -> (FsState, Inode, Result<u32, FsError>) {
        let index = self.first_unresolved(fs.image, 0);
        if index < 10 {
            self.extend_direct(fs, slot, index)
        } else if index < 1034 {
            let s = self.with_singly_block(fs, slot);
            match s.2 {
                Err(e) => (s.0, s.1, Err(e)),
                Ok(singly) => {
                    let t = Inode::extend_table(s.0, singly, index - 10);
                    (
                        t.0,
                        s.1,
                        match t.1 {
                            Ok(_) => Ok(index),
                            Err(e) => Err(e),
                        },
                    )
                },
            }
        } else if index < MAX_BLOCKS {
            let d = self.with_doubly_block(fs, slot);
            match d.2 {
                Err(e) => (d.0, d.1, Err(e)),
                Ok(doubly) => {
                    let s = Inode::with_inner_block(d.0, doubly, (index - 10) / 1024);
                    match s.1 {
                        Err(e) => (s.0, d.1, Err(e)),
                        Ok(singly) => {
                            let t = Inode::extend_table(s.0, singly, (index - 10) % 1024);
                            (
                                t.0,
                                d.1,
                                match t.1 {
                                    Ok(_) => Ok(index),
                                    Err(e) => Err(e),
                                },
                            )
                        },
                    }
                },
            }
        } else {
            (fs, self, Err(FsError::DiskError(DiskError::NotEnoughSpace)))
        }
    }

    /// Gives the inode one more block, at the first index at which it refers to
    /// none, and returns that index.
    pub fn get_next_free_block<D: IO>(&mut self, fs: &mut FileSystem<D>, my_inode_addr: u32) -> (r:
        Result<u32, FsError>)
        ensures
            final(fs).reliable() == old(fs).reliable(),
            final(fs)@.image.len() == old(fs)@.image.len(),
            old(fs).reliable() ==> (final(fs)@, *final(self), r) == old(self).extend(
                old(fs)@,
                my_inode_addr,
            ),
    {
        let blk_id = self.count_blocks(fs);
        if blk_id < 10 {
            self.take_direct_block(fs, my_inode_addr, blk_id)
        } else if blk_id < 1034 {
            let singly = self.ensure_singly_block(fs, my_inode_addr)?;
            Inode::take_table_block(fs, singly, blk_id - 10)?;
            Ok(blk_id)
        } else if blk_id < MAX_BLOCKS {
            let doubly = self.ensure_doubly_block(fs, my_inode_addr)?;
            let singly = Inode::ensure_inner_block(fs, doubly, (blk_id - 10) / 1024)?;
            Inode::take_table_block(fs, singly, (blk_id - 10) % 1024)?;
            Ok(blk_id)
        } else {
            Err(FsError::DiskError(DiskError::NotEnoughSpace))
        }
    }

    /// The state, inode and result, on a reliable device, of giving the inode a
    /// block at every index from `i` on and below `to` at which it refers to none.
    pub open spec fn grow(self, fs: FsState, slot: u32, i: u32, to: u32) -> (
        FsState,
        Inode,
        Result<(), FsError>,
    )
        decreases to - i,
    {
        if i >= to {
            (fs, self, Ok(()))
        } else if self.resolve(fs.image, i) is Some {
            self.grow(fs, slot, (i + 1) as u32, to)
        } else {
            let e = self.extend(fs, slot);
            match e.2 {
                Err(err) => (e.0, e.1, Err(err)),
                Ok(_) => e.1.grow(e.0, slot, (i + 1) as u32, to),
            }
        }
    }

    /// Gives the inode a block at every index below `to` at which it has none.
    fn fill_blocks<D: IO>(&mut self, to: u32, fs: &mut FileSystem<D>, my_inode_addr: u32) -> (r: Result<
        (),
        FsError,
    >)
        ensures
            final(fs).reliable() == old(fs).reliable(),
            final(fs)@.image.len() == old(fs)@.image.len(),
            old(fs).reliable() ==> (final(fs)@, *final(self), r) == old(self).grow(
                old(fs)@,
                my_inode_addr,
                0,
                to,
            ),
    {
        let mut cur_block: u32 = 0;
        while cur_block < to
            invariant
                cur_block <= to,
                fs.reliable() == old(fs).reliable(),
                fs@.image.len() == old(fs)@.image.len(),
                fs.reliable() ==> old(self).grow(old(fs)@, my_inode_addr, 0, to) == self.grow(
                    fs@,
                    my_inode_addr,
                    cur_block,
                    to,
                ),
            decreases to - cur_block,
        {
            if self.get_block_id(cur_block, fs).is_none() {
                self.get_next_free_block(fs, my_inode_addr)?;
            }
            cur_block += 1;
        }
        Ok(())
    }
}

/// The 1024 entries of the pointer block `block`.
pub open spec fn table_entries(img: Seq<u8>, block: u32) -> Seq<u32> {
    Seq::new(1024, |k: int| le_u32(img, entry_addr(block, k)))
}

/// The state and result, on a reliable device, of freeing the blocks that the
/// entries from `k` on name, in their order; an entry that is zero names none.
/// With `deep`, each entry names a pointer block, and what that block names is
/// freed before it. The first step that fails ends the operation.
pub open spec fn release_entries(fs: FsState, entries: Seq<u32>, k: int, deep: bool) -> (
    FsState,
    Result<(), FsError>,
)
    decreases
            (if deep {
                1int
            } else {
                0int
            }),
            entries.len() - k,
{
    if k >= entries.len() || k < 0 {
        (fs, Ok(()))
    } else if entries[k] == 0 {
        release_entries(fs, entries, k + 1, deep)
    } else {
        let inner = if deep {
            release_table(fs, entries[k], false)
        } else {
            (fs, Ok(()))
        };
        let freed = inner.0.free(entries[k]);
        if inner.1 is Err {
            inner
        } else if freed.1 is Err {
            freed
        } else {
            release_entries(freed.0, entries, k + 1, deep)
        }
    }
}

/// The state and result, on a reliable device, of cutting the entries from `e` on
/// off the pointer block `table`: each entry that names a block is set to zero on
/// the device, and then the block is freed. The entries are those that the block
/// held at the start. The first step that fails ends the operation.
pub open spec fn trim_entries(fs: FsState, table: u32, entries: Seq<u32>, e: int) -> (
    FsState,
    Result<(), FsError>,
)
    decreases entries.len() - e,
{
    if e >= entries.len() || e < 0 {
        (fs, Ok(()))
    } else if entries[e] == 0 {
        trim_entries(fs, table, entries, e + 1)
    } else {
        let zeroed = fs.put_u32(entry_addr(table, e), 0);
        let freed = zeroed.0.free(entries[e]);
        if zeroed.1 is Err {
            zeroed
        } else if freed.1 is Err {
            freed
        } else {
            trim_entries(freed.0, table, entries, e + 1)
        }
    }
}

/// The state and result, on a reliable device, of cutting the entries from `from`
/// on off the pointer block `table`. The block of a descriptor is rejected.
pub open spec fn trim_table(fs: FsState, table: u32, from: int) -> (FsState, Result<(), FsError>) {
    if table % 16384 == 0 {
        (fs, Err(FsError::InvalidBlock))
    } else if table * 4096 + 4096 > fs.image.len() {
        (fs, Err(FsError::DiskError(DiskError::NotEnoughSpace)))
    } else {
        trim_entries(fs, table, table_entries(fs.image, table), from)
    }
}

/// The state and result, on a reliable device, of cutting the entries from `j` on
/// off the doubly indirect block `doubly`: each entry that names a singly
/// indirect block is set to zero on the device, and then the blocks that the
/// singly indirect block names are freed, and then that block. The entries are
/// those that the doubly indirect block held at the start.
pub open spec fn drop_inner(fs: FsState, doubly: u32, entries: Seq<u32>, j: int) -> (
    FsState,
    Result<(), FsError>,
)
    decreases entries.len() - j,
{
    if j >= entries.len() || j < 0 {
        (fs, Ok(()))
    } else if entries[j] == 0 {
        drop_inner(fs, doubly, entries, j + 1)
    } else {
        let zeroed = fs.put_u32(entry_addr(doubly, j), 0);
        let released = release_table(zeroed.0, entries[j], false);
        let freed = released.0.free(entries[j]);
        if zeroed.1 is Err {
            zeroed
        } else if released.1 is Err {
            released
        } else if freed.1 is Err {
            freed
        } else {
            drop_inner(freed.0, doubly, entries, j + 1)
        }
    }
}

/// The state and result, on a reliable device, of cutting the doubly indirect
/// block `doubly` down to what an inode with `to` blocks of content needs, for
/// `to` above 1034: the singly indirect block that holds the pointer to the
/// block with index `to` loses its entries from that one on, or goes as a whole
/// where that is its first; and every singly indirect block after it goes.
pub open spec fn trim_doubly(fs: FsState, doubly: u32, to: int) -> (FsState, Result<(), FsError>) {
    let entries = table_entries(fs.image, doubly);
    let j = (to - 10) / 1024;
    let e = (to - 10) % 1024;
    let part = if e != 0 && entries[j] != 0 {
        trim_table(fs, entries[j], e)
    } else {
        (fs, Ok(()))
    };
    if doubly % 16384 == 0 {
        (fs, Err(FsError::InvalidBlock))
    } else if doubly * 4096 + 4096 > fs.image.len() {
        (fs, Err(FsError::DiskError(DiskError::NotEnoughSpace)))
    } else if part.1 is Err {
        part
    } else {
        drop_inner(
            part.0,
            doubly,
            entries,
            if e == 0 {
                j
            } else {
                j + 1
            },
        )
    }
}

/// The state and result of `unallocate_block` on a reliable device: the blocks that
/// the pointer block `block` names are freed, as they are read from it at the
/// start. The block of a descriptor is rejected.
pub open spec fn release_table(fs: FsState, block: u32, deep: bool) -> (
    FsState,
    Result<(), FsError>,
)
    decreases
            (if deep {
                1int
            } else {
                0int
            }),
            1025int,
{
    if block % 16384 == 0 {
        (fs, Err(FsError::InvalidBlock))
    } else if block * 4096 + 4096 > fs.image.len() {
        (fs, Err(FsError::DiskError(DiskError::NotEnoughSpace)))
    } else {
        release_entries(fs, table_entries(fs.image, block), 0, deep)
    }
}

impl Inode {
    /// Frees the blocks that the pointer block `block_id` names; with `is_double`,
    /// after what each of them names. The block of a descriptor is rejected, and
    /// nothing changes.
    pub fn unallocate_block<D: IO>(is_double: bool, block_id: u32, fs: &mut FileSystem<D>) -> (r:
        Result<(), FsError>)
        ensures
            final(fs).reliable() == old(fs).reliable(),
            final(fs)@.image.len() == old(fs)@.image.len(),
            old(fs).reliable() || r is Ok ==> (final(fs)@, r) == release_table(old(fs)@, block_id, is_double),
            block_id % 16384 == 0 ==> r == Err::<(), FsError>(FsError::InvalidBlock) && final(fs)@
                == old(fs)@,
        decreases
                (if is_double {
                    1int
                } else {
                    0int
                }),
    {
        let addr = FileSystem::<D>::pointer(block_id)?;
        let bytes = lift(fs.disk.read_bytes(addr, 4096))?;
        let ghost entries = table_entries(old(fs)@.image, block_id);
        let mut k: usize = 0;
        while k < 1024
            invariant
                k <= 1024,
                block_id % 16384 != 0,
                bytes@.len() == 4096,
                entries.len() == 1024,
                forall|j: int| 0 <= j < 1024 ==> entries[j] == le_u32(bytes@, 4 * j),
                fs.reliable() == old(fs).reliable(),
                fs@.image.len() == old(fs)@.image.len(),
                release_table(old(fs)@, block_id, is_double) == release_entries(
                    fs@,
                    entries,
                    k as int,
                    is_double,
                ),
            decreases 1024 - k,
        {
            let ent = get_u32(bytes.as_slice(), 4 * k);
            if ent != 0 {
                if is_double {
                    Inode::unallocate_block(false, ent, fs)?;
                }
                fs.free_block(ent)?;
            }
            k += 1;
        }
        Ok(())
    }

    /// The state, inode and result, on a reliable device, of freeing the blocks
    /// that the direct pointers from `i` on name, and clearing those pointers.
    pub open spec fn drop_direct(self, fs: FsState, i: u32) -> (FsState, Inode, Result<(), FsError>)
        decreases 10 - i,
    {
        if i >= 10 {
            (fs, self, Ok(()))
        } else if self.block_pointers@[i as int] == 0 {
            self.drop_direct(fs, (i + 1) as u32)
        } else {
            let f = fs.free(self.block_pointers@[i as int]);
            if f.1 is Err {
                (f.0, self, f.1)
            } else {
                self.with_pointer(i as int, 0).drop_direct(f.0, (i + 1) as u32)
            }
        }
    }

    /// Frees the blocks that the direct pointers from `from` on name.
    fn free_direct_blocks<D: IO>(&mut self, fs: &mut FileSystem<D>, from: u32) -> (r: Result<
        (),
        FsError,
    >)
        ensures
            final(fs).reliable() == old(fs).reliable(),
            final(fs)@.image.len() == old(fs)@.image.len(),
            old(fs).reliable() || r is Ok ==> (final(fs)@, *final(self), r) == old(self).drop_direct(
                old(fs)@,
                from,
            ),
    {
        let mut i: u32 = from;
        while i < 10
            invariant
                from <= i,
                fs.reliable() == old(fs).reliable(),
                fs@.image.len() == old(fs)@.image.len(),
                old(self).drop_direct(old(fs)@, from) == self.drop_direct(fs@, i),
            decreases 10 - i,
        {
            let p = self.block_pointers[i as usize];
            if p != 0 {
                fs.free_block(p)?;
                let ghost before = *self;
                self.block_pointers[i as usize] = 0;
                assert(self.block_pointers =~= before.with_pointer(i as int, 0).block_pointers);
            }
            i += 1;
        }
        Ok(())
    }

    /// The state, inode and result, on a reliable device, of freeing the singly
    /// indirect block after the blocks that it names, and clearing its pointer.
    #[verifier::opaque]
    pub open spec fn drop_singly(self, fs: FsState) -> (FsState, Inode, Result<(), FsError>) {
        let released = release_table(fs, self.singly_indirect_block_pointer, false);
        let freed = released.0.free(self.singly_indirect_block_pointer);
        if self.singly_indirect_block_pointer == 0 {
            (fs, self, Ok(()))
        } else if released.1 is Err {
            (released.0, self, released.1)
        } else if freed.1 is Err {
            (freed.0, self, freed.1)
        } else {
            (freed.0, Inode { singly_indirect_block_pointer: 0, ..self }, Ok(()))
        }
    }

    /// Frees the singly indirect block after the blocks that it names.
    fn free_singly_block<D: IO>(&mut self, fs: &mut FileSystem<D>) -> (r: Result<(), FsError>)
        ensures
            final(fs).reliable() == old(fs).reliable(),
            final(fs)@.image.len() == old(fs)@.image.len(),
            old(fs).reliable() || r is Ok ==> (final(fs)@, *final(self), r) == old(self).drop_singly(old(fs)@),
    {
        reveal(Inode::drop_singly);
        if self.singly_indirect_block_pointer != 0 {
            Inode::unallocate_block(false, self.singly_indirect_block_pointer, fs)?;
            fs.free_block(self.singly_indirect_block_pointer)?;
            self.singly_indirect_block_pointer = 0;
        }
        Ok(())
    }

    /// The state, inode and result, on a reliable device, of freeing the doubly
    /// indirect block after the singly indirect blocks that it names and the
    /// blocks that those name, and clearing its pointer.
    #[verifier::opaque]
    pub open spec fn drop_doubly(self, fs: FsState) -> (FsState, Inode, Result<(), FsError>) {
        let released = release_table(fs, self.doubly_indirect_block_pointer, true);
        let freed = released.0.free(self.doubly_indirect_block_pointer);
        if self.doubly_indirect_block_pointer == 0 {
            (fs, self, Ok(()))
        } else if released.1 is Err {
            (released.0, self, released.1)
        } else if freed.1 is Err {
            (freed.0, self, freed.1)
        } else {
            (freed.0, Inode { doubly_indirect_block_pointer: 0, ..self }, Ok(()))
        }
    }

    /// Frees the doubly indirect block after all that it names.
    fn free_doubly_block<D: IO>(&mut self, fs: &mut FileSystem<D>) -> (r: Result<(), FsError>)
        ensures
            final(fs).reliable() == old(fs).reliable(),
            final(fs)@.image.len() == old(fs)@.image.len(),
            old(fs).reliable() || r is Ok ==> (final(fs)@, *final(self), r) == old(self).drop_doubly(old(fs)@),
    {
        reveal(Inode::drop_doubly);
        if self.doubly_indirect_block_pointer != 0 {
            Inode::unallocate_block(true, self.doubly_indirect_block_pointer, fs)?;
            fs.free_block(self.doubly_indirect_block_pointer)?;
            self.doubly_indirect_block_pointer = 0;
        }
        Ok(())
    }

    /// The state, inode and result of `resize_self` on a reliable device. The
    /// inode gets a block at every index below `to` at which it has none. Then all
    /// that it refers to beyond is given back: the blocks of the direct pointers
    /// from `to` on; of the singly indirect block the entries from `to - 10` on,
    /// or, where `to` is at most 10, the block as a whole; of the doubly indirect
    /// block what lies beyond `to`, or, where `to` is at most 1034, the block as a
    /// whole. Then the inode is stored. The first step that fails ends the
    /// operation.
    #[verifier::opaque]
    pub open spec fn resize(self, fs: FsState, slot: u32, to: u32) -> (
        FsState,
        Inode,
        Result<(), FsError>,
    ) {
        let g = self.grow(fs, slot, 0, to);
        let d = g.1.drop_direct(g.0, to);
        let s = d.1.cut_singly(d.0, to);
        let t = s.1.cut_doubly(s.0, to);
        let w = t.0.put_inode(slot, t.1);
        if g.2 is Err {
            g
        } else if d.2 is Err {
            d
        } else if s.2 is Err {
            s
        } else if t.2 is Err {
            t
        } else {
            (w.0, t.1, w.1)
        }
    }

    /// The state, inode and result, on a reliable device, of giving back what the
    /// singly indirect block holds beyond the blocks of an inode with `to` blocks
    /// of content.
    pub open spec fn cut_singly(self, fs: FsState, to: u32) -> (FsState, Inode, Result<(), FsError>) {
        let trimmed = trim_table(fs, self.singly_indirect_block_pointer, to - 10);
        if to <= 10 {
            self.drop_singly(fs)
        } else if to < 1034 && self.singly_indirect_block_pointer != 0 {
            (trimmed.0, self, trimmed.1)
        } else {
            (fs, self, Ok(()))
        }
    }

    /// The state, inode and result, on a reliable device, of giving back what the
    /// doubly indirect block leads to beyond the blocks of an inode with `to`
    /// blocks of content.
    pub open spec fn cut_doubly(self, fs: FsState, to: u32) -> (FsState, Inode, Result<(), FsError>) {
        let trimmed = trim_doubly(fs, self.doubly_indirect_block_pointer, to as int);
        if to <= 1034 {
            self.drop_doubly(fs)
        } else if to < MAX_BLOCKS && self.doubly_indirect_block_pointer != 0 {
            (trimmed.0, self, trimmed.1)
        } else {
            (fs, self, Ok(()))
        }
    }

    /// Cuts the entries from `from` on off the pointer block `table`: each entry
    /// that names a block is set to zero, and then the block is freed.
    fn shorten_table<D: IO>(fs: &mut FileSystem<D>, table: u32, from: u32) -> (r: Result<
        (),
        FsError,
    >)
        requires
            from <= 1024,
        ensures
            final(fs).reliable() == old(fs).reliable(),
            final(fs)@.image.len() == old(fs)@.image.len(),
            old(fs).reliable() || r is Ok ==> (final(fs)@, r) == trim_table(
                old(fs)@,
                table,
                from as int,
            ),
    {
        let addr = FileSystem::<D>::pointer(table)?;
        let bytes = lift(fs.disk.read_bytes(addr, 4096))?;
        let ghost entries = table_entries(old(fs)@.image, table);
        let mut e: usize = from as usize;
        while e < 1024
            invariant
                from <= e <= 1024,
                addr == table * 4096,
                bytes@.len() == 4096,
                entries.len() == 1024,
                forall|j: int| 0 <= j < 1024 ==> entries[j] == le_u32(bytes@, 4 * j),
                fs.reliable() == old(fs).reliable(),
                fs@.image.len() == old(fs)@.image.len(),
                trim_table(old(fs)@, table, from as int) == trim_entries(
                    fs@,
                    table,
                    entries,
                    e as int,
                ),
            decreases 1024 - e,
        {
            let ent = get_u32(bytes.as_slice(), 4 * e);
            if ent != 0 {
                lift(fs.disk.write_u32(addr + 4 * e as u64, 0))?;
                fs.free_block(ent)?;
            }
            e += 1;
        }
        Ok(())
    }

    /// Cuts the entries from `from` on off the doubly indirect block `doubly`,
    /// whose content is `bytes`: each entry that names a singly indirect block is
    /// set to zero, and then that block is freed after the blocks that it names.
    fn drop_inner_tables<D: IO>(fs: &mut FileSystem<D>, doubly: u32, bytes: &[u8], from: u32) -> (r:
        Result<(), FsError>)
        requires
            from <= 1024,
            bytes@.len() == 4096,
        ensures
            final(fs).reliable() == old(fs).reliable(),
            final(fs)@.image.len() == old(fs)@.image.len(),
            old(fs).reliable() || r is Ok ==> (final(fs)@, r) == drop_inner(
                old(fs)@,
                doubly,
                Seq::new(1024, |j: int| le_u32(bytes@, 4 * j)),
                from as int,
            ),
    {
        let ghost entries = Seq::new(1024, |j: int| le_u32(bytes@, 4 * j));
        let mut j: usize = from as usize;
        while j < 1024
            invariant
                from <= j <= 1024,
                bytes@.len() == 4096,
                entries == Seq::new(1024, |j: int| le_u32(bytes@, 4 * j)),
                fs.reliable() == old(fs).reliable(),
                fs@.image.len() == old(fs)@.image.len(),
                drop_inner(old(fs)@, doubly, entries, from as int) == drop_inner(
                    fs@,
                    doubly,
                    entries,
                    j as int,
                ),
            decreases 1024 - j,
        {
            let ent = get_u32(bytes, 4 * j);
            if ent != 0 {
                lift(fs.disk.write_u32(doubly as u64 * 4096 + 4 * j as u64, 0))?;
                Inode::unallocate_block(false, ent, fs)?;
                fs.free_block(ent)?;
            }
            j += 1;
        }
        Ok(())
    }

    /// Cuts the doubly indirect block `doubly` down to what an inode with `to`
    /// blocks of content needs.
    fn shorten_doubly<D: IO>(fs: &mut FileSystem<D>, doubly: u32, to: u32) -> (r: Result<
        (),
        FsError,
    >)
        requires
            1034 < to < MAX_BLOCKS,
        ensures
            final(fs).reliable() == old(fs).reliable(),
            final(fs)@.image.len() == old(fs)@.image.len(),
            old(fs).reliable() || r is Ok ==> (final(fs)@, r) == trim_doubly(
                old(fs)@,
                doubly,
                to as int,
            ),
    {
        let addr = FileSystem::<D>::pointer(doubly)?;
        let bytes = lift(fs.disk.read_bytes(addr, 4096))?;
        assert(table_entries(old(fs)@.image, doubly) =~= Seq::new(
            1024,
            |j: int| le_u32(bytes@, 4 * j),
        ));
        let j: u32 = (to - 10) / 1024;
        let e: u32 = (to - 10) % 1024;
        if e != 0 {
            let ent = get_u32(bytes.as_slice(), 4 * j as usize);
            if ent != 0 {
                Inode::shorten_table(fs, ent, e)?;
            }
        }
        let first: u32 = if e == 0 {
            j
        } else {
            j + 1
        };
        Inode::drop_inner_tables(fs, doubly, bytes.as_slice(), first)
    }

    /// Gives back what the singly indirect block holds beyond the blocks of an
    /// inode with `to` blocks of content.
    fn cut_singly_block<D: IO>(&mut self, fs: &mut FileSystem<D>, to: u32) -> (r: Result<
        (),
        FsError,
    >)
        ensures
            final(fs).reliable() == old(fs).reliable(),
            final(fs)@.image.len() == old(fs)@.image.len(),
            old(fs).reliable() || r is Ok ==> (final(fs)@, *final(self), r) == old(self).cut_singly(
                old(fs)@,
                to,
            ),
    {
        if to <= 10 {
            self.free_singly_block(fs)
        } else if to < 1034 && self.singly_indirect_block_pointer != 0 {
            Inode::shorten_table(fs, self.singly_indirect_block_pointer, to - 10)
        } else {
            Ok(())
        }
    }

    /// Gives back what the doubly indirect block leads to beyond the blocks of an
    /// inode with `to` blocks of content.
    fn cut_doubly_block<D: IO>(&mut self, fs: &mut FileSystem<D>, to: u32) -> (r: Result<
        (),
        FsError,
    >)
        ensures
            final(fs).reliable() == old(fs).reliable(),
            final(fs)@.image.len() == old(fs)@.image.len(),
            old(fs).reliable() || r is Ok ==> (final(fs)@, *final(self), r) == old(self).cut_doubly(
                old(fs)@,
                to,
            ),
    {
        if to <= 1034 {
            self.free_doubly_block(fs)
        } else if to < MAX_BLOCKS && self.doubly_indirect_block_pointer != 0 {
            Inode::shorten_doubly(fs, self.doubly_indirect_block_pointer, to)
        } else {
            Ok(())
        }
    }

    /// Makes the inode refer to exactly `to` blocks: it gets a block at every index
    /// below `to` at which it has none, and gives back all that it has beyond.
    pub fn resize_self<D: IO>(&mut self, to: u32, fs: &mut FileSystem<D>, my_inode_addr: u32) -> (r:
        Result<(), FsError>)
        ensures
            final(fs).reliable() == old(fs).reliable(),
            final(fs)@.image.len() == old(fs)@.image.len(),
            old(fs).reliable() ==> (final(fs)@, *final(self), r) == old(self).resize(
                old(fs)@,
                my_inode_addr,
                to,
            ),
    {
        reveal(Inode::resize);
        self.fill_blocks(to, fs, my_inode_addr)?;
        self.free_direct_blocks(fs, to)?;
        self.cut_singly_block(fs, to)?;
        self.cut_doubly_block(fs, to)?;
        fs.write_inode(my_inode_addr, self)
    }
}

impl Inode {
    /// The number of blocks of 4096 bytes that `len` bytes take.
    pub open spec fn blocks_for(len: nat) -> int {
        (len as int + 4095) / 4096
    }

    /// The state and result, on a reliable device, of writing `data` in parts of
    /// 4096 bytes to the blocks that the inode refers to, from part `i` on and up to
    /// part `blocks`. It fails where the inode refers to no block for a part, or to
    /// the block of a descriptor.
    pub open spec fn store_parts(self, fs: FsState, data: Seq<u8>, i: u32, blocks: u32) -> (
        FsState,
        Result<(), FsError>,
    )
        decreases blocks - i,
    {
        if i >= blocks {
            (fs, Ok(()))
        } else {
            match self.resolve(fs.image, i) {
                None => (fs, Err(FsError::NoEntry)),
                Some(block) => {
                    let part = data.subrange(
                        i * 4096,
                        if (i + 1) * 4096 <= data.len() {
                            (i + 1) * 4096
                        } else {
                            data.len() as int
                        },
                    );
                    let written = FsState {
                        image: splice(fs.image, block * 4096, part),
                        superblock: fs.superblock,
                    };
                    if block % 16384 == 0 {
                        (fs, Err(FsError::InvalidBlock))
                    } else if block * 4096 + part.len() > fs.image.len() {
                        (written, Err(FsError::DiskError(DiskError::NotEnoughSpace)))
                    } else {
                        self.store_parts(written, data, (i + 1) as u32, blocks)
                    }
                },
            }
        }
    }

    /// Writes `buf` in parts of 4096 bytes to the blocks that the inode refers to.
    fn write_parts<D: IO>(&self, buf: &[u8], fs: &mut FileSystem<D>, blocks: u32) -> (r: Result<
        (),
        FsError,
    >)
        requires
            blocks == Inode::blocks_for(buf@.len()),
        ensures
            final(fs).reliable() == old(fs).reliable(),
            final(fs)@.image.len() == old(fs)@.image.len(),
            old(fs).reliable() ==> (final(fs)@, r) == self.store_parts(old(fs)@, buf@, 0, blocks),
    {
        let len: usize = buf.len();
        let mut i: u32 = 0;
        while i < blocks
            invariant
                i <= blocks,
                blocks == Inode::blocks_for(buf@.len()),
                len == buf@.len(),
                fs.reliable() == old(fs).reliable(),
                fs@.image.len() == old(fs)@.image.len(),
                fs.reliable() ==> self.store_parts(old(fs)@, buf@, 0, blocks) == self.store_parts(
                    fs@,
                    buf@,
                    i,
                    blocks,
                ),
            decreases blocks - i,
        {
            let block = match self.get_block_id(i, fs) {
                Some(b) => b,
                None => {
                    return Err(FsError::NoEntry);
                },
            };
            let off = FileSystem::<D>::pointer(block)?;
            let start: usize = i as usize * 4096;
            let end: usize = if len - start >= 4096 {
                start + 4096
            } else {
                len
            };
            let ghost before = fs@;
            let w = lift(fs.disk.write_exact(off, slice_subrange(buf, start, end)));
            assert(fs.reliable() ==> fs@.image == splice(
                before.image,
                block * 4096,
                buf@.subrange(start as int, end as int),
            ));
            w?;
            i += 1;
        }
        Ok(())
    }

    /// The state, inode and result of `file_write` on a reliable device. An inode
    /// that is no file is rejected, and so is data that takes more blocks than an
    /// inode can refer to. Else the inode is resized to the blocks that the data
    /// takes, the data is written to them, and the inode is stored with the
    /// data's length modulo 4096 as its `meta`. The first step that fails ends the
    /// operation.
    pub open spec fn write_file(self, fs: FsState, slot: u32, data: Seq<u8>) -> (
        FsState,
        Inode,
        Result<(), FsError>,
    ) {
        let blocks = Inode::blocks_for(data.len()) as u32;
        let r = self.resize(fs, slot, blocks);
        let c = r.1.store_parts(r.0, data, 0, blocks);
        let inode = Inode { meta: (data.len() % 4096) as u32, ..r.1 };
        let w = c.0.put_inode(slot, inode);
        if self.type_and_permission.inode_type() != InodeType::File {
            (fs, self, Err(FsError::NoSpace))
        } else if Inode::blocks_for(data.len()) > MAX_BLOCKS {
            (fs, self, Err(FsError::DiskError(DiskError::NotEnoughSpace)))
        } else if r.2 is Err {
            r
        } else if c.1 is Err {
            (c.0, r.1, c.1)
        } else {
            (w.0, inode, w.1)
        }
    }

    /// Makes `buf` the content of the file. An inode that is no file is rejected
    /// with `NoSpace`, and data that takes more blocks than an inode can refer to
    /// with `NotEnoughSpace`; nothing changes then.
    pub fn file_write<D: IO>(&mut self, buf: &[u8], fs: &mut FileSystem<D>, my_inode_addr: u32) -> (r:
        Result<(), FsError>)
        ensures
            final(fs).reliable() == old(fs).reliable(),
            final(fs)@.image.len() == old(fs)@.image.len(),
            old(self).type_and_permission.inode_type() != InodeType::File ==> r == Err::<
                (),
                FsError,
            >(FsError::NoSpace) && final(fs)@ == old(fs)@ && *final(self) == *old(self),
            old(self).type_and_permission.inode_type() == InodeType::File && Inode::blocks_for(
                buf@.len(),
            ) > MAX_BLOCKS ==> r == Err::<(), FsError>(
                FsError::DiskError(DiskError::NotEnoughSpace),
            ) && final(fs)@ == old(fs)@ && *final(self) == *old(self),
            old(fs).reliable() ==> (final(fs)@, *final(self), r) == old(self).write_file(
                old(fs)@,
                my_inode_addr,
                buf@,
            ),
    {
        if self.type_and_permission.get_type() != InodeType::File {
            return Err(FsError::NoSpace);
        }
        let len: usize = buf.len();
        let whole: usize = len / 4096;
        if whole > MAX_BLOCKS as usize || (whole == MAX_BLOCKS as usize && len % 4096 != 0) {
            return Err(FsError::DiskError(DiskError::NotEnoughSpace));
        }
        let blocks: u32 = if len % 4096 == 0 {
            whole as u32
        } else {
            whole as u32 + 1
        };
        assert(blocks == Inode::blocks_for(buf@.len()));
        self.resize_self(blocks, fs, my_inode_addr)?;
        self.write_parts(buf, fs, blocks)?;
        self.meta = (len % 4096) as u32;
        fs.write_inode(my_inode_addr, self)
    }

    /// What reading one part of the inode's content gives on a reliable device that
    /// holds `img`: up to `len` bytes from offset `off` on, out of the block that
    /// holds that offset, as far as the device holds them. It fails where the
    /// inode refers to no block for the offset.
    pub open spec fn part(self, img: Seq<u8>, off: u64, len: nat) -> Result<Seq<u8>, FsError> {
        if off / 4096 >= MAX_BLOCKS {
            Err(FsError::NoEntry)
        } else {
            match self.resolve(img, (off / 4096) as u32) {
                None => Err(FsError::NoEntry),
                Some(block) => Ok(
                    span(
                        img,
                        block * 4096 + off % 4096,
                        transfer_len(img.len(), (block * 4096 + off % 4096) as u64, len),
                    ),
                ),
            }
        }
    }

    /// What `read` delivers on a reliable device that holds `img`: up to `len` bytes
    /// of the inode's content from offset `off` on. The bytes are taken block by
    /// block, and end before the first block that the inode does not refer to, or
    /// with the first block that the device holds only in part.
    pub open spec fn content(self, img: Seq<u8>, off: u64, len: nat) -> Seq<u8>
        decreases len,
    {
        let room = (4096 - off % 4096) as nat;
        let want = if room <= len {
            room
        } else {
            len
        };
        if len == 0 {
            Seq::empty()
        } else {
            match self.part(img, off, want) {
                Err(_) => Seq::empty(),
                Ok(got) => if got.len() < want {
                    got
                } else {
                    got + self.content(img, (off + want) as u64, (len - want) as nat)
                },
            }
        }
    }

    /// A read delivers no more bytes than were asked for.
    pub proof fn lemma_content_len(self, img: Seq<u8>, off: u64, len: nat)
        ensures
            self.content(img, off, len).len() <= len,
        decreases len,
    {
        let room = (4096 - off % 4096) as nat;
        let want = if room <= len {
            room
        } else {
            len
        };
        if len > 0 {
            match self.part(img, off, want) {
                Err(_) => {},
                Ok(got) => {
                    if got.len() >= want {
                        self.lemma_content_len(img, (off + want) as u64, (len - want) as nat);
                    }
                },
            }
        }
    }

    /// Reads up to `len` bytes of the content from offset `off` on, out of the block
    /// that holds that offset.
    fn _read<D: IO>(&self, off: u64, len: usize, fs: &mut FileSystem<D>) -> (r: Result<
        Vec<u8>,
        FsError,
    >)
        ensures
            final(fs)@ == old(fs)@,
            final(fs).reliable() == old(fs).reliable(),
            r matches Ok(v) ==> v@.len() <= len,
            off / 4096 >= MAX_BLOCKS ==> r == Err::<Vec<u8>, FsError>(FsError::NoEntry),
            old(fs).reliable() ==> match r {
                Ok(v) => Ok::<Seq<u8>, FsError>(v@),
                Err(e) => Err::<Seq<u8>, FsError>(e),
            } == self.part(old(fs)@.image, off, len as nat),
    {
        if off / 4096 >= MAX_BLOCKS as u64 {
            return Err(FsError::NoEntry);
        }
        let block = match self.get_block_id((off / 4096) as u32, fs) {
            Some(b) => b,
            None => {
                return Err(FsError::NoEntry);
            },
        };
        let addr: u64 = block as u64 * 4096 + off % 4096;
        let mut v: Vec<u8> = vec![0u8; len];
        let n = lift(fs.disk.read_lossy(addr, v.as_mut_slice()))?;
        v.truncate(n);
        assert(fs.reliable() ==> v@ =~= span(fs@.image, addr as int, n as nat));
        Ok(v)
    }

    /// Reads the content from offset `off` on into `buf`, as far as there is any,
    /// and returns how many bytes it read: none for an empty buffer, and none from
    /// an offset beyond the blocks that an inode can have.
    pub fn read<D: IO>(&self, off: u64, buf: &mut [u8], fs: &mut FileSystem<D>) -> (r: Result<
        usize,
        FsError,
    >)
        ensures
            final(fs)@ == old(fs)@,
            final(fs).reliable() == old(fs).reliable(),
            final(buf)@.len() == old(buf)@.len(),
            r matches Ok(n) ==> n <= old(buf)@.len(),
            old(buf)@.len() == 0 || off / 4096 >= MAX_BLOCKS ==> r == Ok::<usize, FsError>(0)
                && final(buf)@ == old(buf)@,
            old(fs).reliable() ==> r is Ok && final(buf)@ == splice(
                old(buf)@,
                0,
                self.content(old(fs)@.image, off, old(buf)@.len()),
            ) && r->Ok_0 == self.content(old(fs)@.image, off, old(buf)@.len()).len(),
    {
        let total: usize = buf.len();
        let ghost img = fs@.image;
        let mut done: usize = 0;
        let mut at: u64 = off;
        loop
            invariant
                done <= total,
                total == buf@.len(),
                total == old(buf)@.len(),
                fs@ == old(fs)@,
                img == fs@.image,
                fs.reliable() == old(fs).reliable(),
                fs.reliable() ==> self.content(img, off, total as nat) == buf@.take(done as int)
                    + self.content(img, at, (total - done) as nat),
                buf@.skip(done as int) == old(buf)@.skip(done as int),
                total == 0 || off / 4096 >= MAX_BLOCKS ==> done == 0 && at == off && buf@ == old(
                    buf,
                )@,
            decreases total - done,
        {
            let room: usize = (4096 - at % 4096) as usize;
            let want: usize = if room <= total - done {
                room
            } else {
                total - done
            };
            if want == 0 {
                proof {
                    Inode::lemma_read_into(old(buf)@, buf@, done as int);
                }
                return Ok(done);
            }
            let got = match self._read(at, want, fs) {
                Ok(v) => v,
                Err(FsError::NoEntry) => {
                    proof {
                        Inode::lemma_read_into(old(buf)@, buf@, done as int);
                    }
                    return Ok(done);
                },
                Err(e) => {
                    return Err(e);
                },
            };
            let ghost before = buf@;
            copy_into(buf, done, got.as_slice());
            let n: usize = got.len();
            proof {
                assert(buf@.take(done + n) =~= before.take(done as int) + got@);
                let tail = buf@.skip(done + n);
                let old_tail = old(buf)@.skip(done + n);
                assert(tail =~= old_tail) by {
                    assert forall|j: int| 0 <= j < tail.len() implies #[trigger] tail[j]
                        == old_tail[j] by {
                        assert(before.skip(done as int)[n + j] == old(buf)@.skip(done as int)[n + j]);
                    }
                }
            }
            done += n;
            if n < want {
                proof {
                    Inode::lemma_read_into(old(buf)@, buf@, done as int);
                }
                return Ok(done);
            }
            proof {
                if fs.reliable() {
                    assert(at / 4096 < MAX_BLOCKS);
                    assert((before.take(done - n) + got@) + self.content(
                        img,
                        (at + want) as u64,
                        (total - done) as nat,
                    ) =~= before.take(done - n) + (got@ + self.content(
                        img,
                        (at + want) as u64,
                        (total - done) as nat,
                    )));
                }
            }
            if at / 4096 >= MAX_BLOCKS as u64 {
                return Ok(done);
            }
            at += want as u64;
        }
    }

    /// A buffer whose front was read into is the old buffer with what was read
    /// spliced in at its start.
    proof fn lemma_read_into(before: Seq<u8>, after: Seq<u8>, done: int)
        requires
            0 <= done <= before.len(),
            after.len() == before.len(),
            after.skip(done) == before.skip(done),
        ensures
            after == splice(before, 0, after.take(done)),
    {
        assert forall|j: int| 0 <= j < before.len() implies after[j] == splice(
            before,
            0,
            after.take(done),
        )[j] by {
            if j >= done {
                assert(after.skip(done)[j - done] == before.skip(done)[j - done]);
            }
        }
        assert(after =~= splice(before, 0, after.take(done)));
    }

    /// Fills `buf` with the content from offset `off` on, or fails with `NoSpace`
    /// where there is less of it.
    pub fn read_exact<D: IO>(&self, off: u64, buf: &mut [u8], fs: &mut FileSystem<D>) -> (r: Result<
        (),
        FsError,
    >)
        ensures
            final(fs)@ == old(fs)@,
            final(fs).reliable() == old(fs).reliable(),
            final(buf)@.len() == old(buf)@.len(),
            old(fs).reliable() ==> final(buf)@ == splice(
                old(buf)@,
                0,
                self.content(old(fs)@.image, off, old(buf)@.len()),
            ) && r == if self.content(old(fs)@.image, off, old(buf)@.len()).len() == old(
                buf,
            )@.len() {
                Ok::<(), FsError>(())
            } else {
                Err::<(), FsError>(FsError::NoSpace)
            },
    {
        if self.read(off, buf, fs)? != buf.len() {
            Err(FsError::NoSpace)
        } else {
            Ok(())
        }
    }

    /// All the content that can be read from the block with index `i` on, on a
    /// reliable device that holds `img`: block after block, up to the first one
    /// that cannot be read in full.
    pub open spec fn whole(self, img: Seq<u8>, i: u32) -> Seq<u8>
        decreases MAX_BLOCKS - i,
    {
        let c = self.content(img, (i * 4096) as u64, 4096);
        if i >= MAX_BLOCKS {
            Seq::empty()
        } else if c.len() < 4096 {
            c
        } else {
            c + self.whole(img, (i + 1) as u32)
        }
    }
}

/// The content of a file whose blocks hold `data` and whose `meta` is `meta`: the
/// low twelve bits of `meta` say how many bytes of the last block belong to it, and
/// zero says all of them.
pub open spec fn trimmed(data: Seq<u8>, meta: u32) -> Seq<u8> {
    if meta % 4096 == 0 {
        data
    } else if data.len() < 4096 - meta % 4096 {
        Seq::empty()
    } else {
        data.take(data.len() - (4096 - meta % 4096))
    }
}

/// Reads the part of the content of `inode` that the block with index `i` holds.
fn read_block<D: IO>(inode: &Inode, fs: &mut FileSystem<D>, i: u32) -> (r: Result<Vec<u8>, FsError>)
    ensures
        final(fs)@ == old(fs)@,
        final(fs).reliable() == old(fs).reliable(),
        r matches Ok(v) ==> v@.len() <= 4096,
        old(fs).reliable() ==> r is Ok && r->Ok_0@ == inode.content(
            old(fs)@.image,
            (i * 4096) as u64,
            4096,
        ),
{
    let mut block: Vec<u8> = vec![0u8; 4096];
    let read = inode.read(i as u64 * 4096, block.as_mut_slice(), fs)?;
    block.truncate(read);
    proof {
        if fs.reliable() {
            let c = inode.content(fs@.image, (i * 4096) as u64, 4096);
            assert(block@ =~= c);
        }
    }
    Ok(block)
}

/// Reads the whole content of the file `inode`.
pub fn read_entire_inode<D: IO>(inode: &mut Inode, fs: &mut FileSystem<D>) -> (r: Result<
    Vec<u8>,
    FsError,
>)
    ensures
        *final(inode) == *old(inode),
        final(fs)@ == old(fs)@,
        final(fs).reliable() == old(fs).reliable(),
        old(fs).reliable() ==> r is Ok && r->Ok_0@ == trimmed(
            old(inode).whole(old(fs)@.image, 0),
            old(inode).meta,
        ),
{
    let mut vec: Vec<u8> = Vec::new();
    let mut i: u32 = 0;
    loop
        invariant_except_break
            fs.reliable() ==> inode.whole(fs@.image, 0) == vec@ + inode.whole(fs@.image, i),
        invariant
            i <= MAX_BLOCKS,
            *inode == *old(inode),
            fs@ == old(fs)@,
            fs.reliable() == old(fs).reliable(),
        ensures
            fs.reliable() ==> inode.whole(fs@.image, 0) == vec@,
        decreases MAX_BLOCKS - i,
    {
        if i >= MAX_BLOCKS {
            assert(vec@ + Seq::<u8>::empty() =~= vec@);
            break ;
        }
        let mut block = read_block(inode, fs, i)?;
        let read: usize = block.len();
        let ghost before = vec@;
        let ghost c = block@;
        let ghost rest = inode.whole(fs@.image, (i + 1) as u32);
        vec.append(&mut block);
        proof {
            assert((before + c) + rest =~= before + (c + rest));
        }
        if read != 4096 {
            break ;
        }
        i += 1;
    }
    let tail: u32 = inode.meta % 4096;
    if tail != 0 {
        let cut: usize = (4096 - tail) as usize;
        if vec.len() < cut {
            vec.truncate(0);
            assert(vec@ =~= Seq::<u8>::empty());
        } else {
            let keep: usize = vec.len() - cut;
            vec.truncate(keep);
        }
    }
    Ok(vec)
}

/// Whether a slot from `from` on and below `upto` holds an inode with a hard link,
/// as a scan over the slots finds on a reliable device. The scan fails where a slot
/// that it has to read lies outside the device.
pub open spec fn any_linked(fs: FsState, from: int, upto: int) -> Result<bool, FsError>
    decreases upto - from,
{
    if from >= upto || from < 0 || from > u32::MAX {
        Ok(false)
    } else {
        match fs.inode(from as u32) {
            Err(e) => Err(e),
            Ok(inode) => if inode.hardlinks != 0 {
                Ok(true)
            } else {
                any_linked(fs, from + 1, upto)
            },
        }
    }
}

/// The state and result, on a reliable device, of giving back the inode block
/// that holds slot `slot` where none of its 32 slots holds an inode with a hard
/// link: the block is freed, and where the superblock's hint named a slot of it,
/// the hint is cleared and the superblock stored. The block of a descriptor is
/// left alone.
#[verifier::opaque]
pub open spec fn reclaim(fs: FsState, slot: u32) -> (FsState, Result<(), FsError>) {
    let block = slot / 32;
    let freed = fs.free(block);
    let hint = freed.0.superblock.earliest_inode_space;
    if block % 16384 == 0 {
        (fs, Ok(()))
    } else {
        match any_linked(fs, block * 32, block * 32 + 32) {
            Err(e) => (fs, Err(e)),
            Ok(true) => (fs, Ok(())),
            Ok(false) => if freed.1 is Ok && hint != 0 && hint / 32 == block {
                (FsState {
                    image: freed.0.image,
                    superblock: Superblock { earliest_inode_space: 0, ..freed.0.superblock },
                }).persist()
            } else {
                freed
            },
        }
    }
}

impl Inode {
    /// Whether a slot of the inode block `block` holds an inode with a hard link.
    fn block_holds_inodes<D: IO>(fs: &mut FileSystem<D>, block: u32) -> (r: Result<bool, FsError>)
        requires
            block * 32 + 32 <= u32::MAX + 1,
        ensures
            final(fs)@ == old(fs)@,
            final(fs).reliable() == old(fs).reliable(),
            old(fs).reliable() || r is Ok ==> r == any_linked(old(fs)@, block * 32, block * 32 + 32),
    {
        let mut i: u32 = 0;
        while i < 32
            invariant
                i <= 32,
                block * 32 + 32 <= u32::MAX + 1,
                fs@ == old(fs)@,
                fs.reliable() == old(fs).reliable(),
                any_linked(fs@, block * 32, block * 32 + 32) == any_linked(
                    fs@,
                    block * 32 + i,
                    block * 32 + 32,
                ),
            decreases 32 - i,
        {
            let inode = fs.read_inode(block * 32 + i)?;
            if inode.hardlinks != 0 {
                return Ok(true);
            }
            i += 1;
        }
        Ok(false)
    }

    /// Gives back the inode block that holds slot `slot` where no slot of it is in
    /// use.
    fn give_back_inode_block<D: IO>(fs: &mut FileSystem<D>, slot: u32) -> (r: Result<(), FsError>)
        ensures
            final(fs).reliable() == old(fs).reliable(),
            final(fs)@.image.len() == old(fs)@.image.len(),
            old(fs).reliable() || r is Ok ==> (final(fs)@, r) == reclaim(old(fs)@, slot),
    {
        reveal(reclaim);
        let block = slot / 32;
        if block % 16384 == 0 {
            return Ok(());
        }
        if Inode::block_holds_inodes(fs, block)? {
            return Ok(());
        }
        fs.free_block(block)?;
        let hint = fs.superblock.earliest_inode_space;
        if hint != 0 && hint / 32 == block {
            fs.superblock.earliest_inode_space = 0;
            fs.write_superblock()?;
        }
        Ok(())
    }

    /// The state, inode and result of `delete` on a reliable device. The inode
    /// loses one hard link and is stored. Where it has none left, the blocks that
    /// it refers to are freed: those of the direct pointers, the singly indirect
    /// block after what it names, the doubly indirect block after what it names;
    /// the inode is stored without pointers; and its inode block is given back
    /// where no slot of it is in use any more. The first step that fails ends the
    /// operation.
    pub open spec fn remove(self, fs: FsState, slot: u32) -> (FsState, Inode, Result<(), FsError>) {
        let unlinked = Inode { hardlinks: (self.hardlinks - 1) as u16, ..self };
        let w = fs.put_inode(slot, unlinked);
        let d = unlinked.drop_direct(w.0, 0);
        let s = d.1.drop_singly(d.0);
        let t = s.1.drop_doubly(s.0);
        let stored = t.0.put_inode(slot, t.1);
        let given = reclaim(stored.0, slot);
        if w.1 is Err || unlinked.hardlinks > 0 {
            (w.0, unlinked, w.1)
        } else if d.2 is Err {
            d
        } else if s.2 is Err {
            s
        } else if t.2 is Err {
            t
        } else if stored.1 is Err {
            (stored.0, t.1, stored.1)
        } else {
            (given.0, t.1, given.1)
        }
    }

    /// Takes one hard link from the inode, which is stored in slot
    /// `my_inode_addr`; with the last one, the inode's blocks are given back.
    pub fn delete<D: IO>(&mut self, my_inode_addr: u32, fs: &mut FileSystem<D>) -> (r: Result<
        (),
        FsError,
    >)
        requires
            old(self).hardlinks > 0,
        ensures
            final(fs).reliable() == old(fs).reliable(),
            final(fs)@.image.len() == old(fs)@.image.len(),
            old(fs).reliable() || r is Ok ==> (final(fs)@, *final(self), r) == old(self).remove(
                old(fs)@,
                my_inode_addr,
            ),
    {
        self.hardlinks = self.hardlinks - 1;
        fs.write_inode(my_inode_addr, self)?;
        if self.hardlinks > 0 {
            return Ok(());
        }
        self.free_direct_blocks(fs, 0)?;
        self.free_singly_block(fs)?;
        self.free_doubly_block(fs)?;
        fs.write_inode(my_inode_addr, self)?;
        Inode::give_back_inode_block(fs, my_inode_addr)
    }
}

/// What reading the head of a directory entry at `addr` gives on a reliable device
/// that holds `img`: the length of the name, and the inode.
pub open spec fn stored_header(img: Seq<u8>, addr: int) -> Result<(u8, u32), FsError> {
    if 0 <= addr && addr + 5 <= img.len() {
        Ok((img[addr], le_u32(img, addr + 1)))
    } else {
        Err(FsError::DiskError(DiskError::NotEnoughSpace))
    }
}

/// The head of the directory entry at `addr`: the length of its name, and its inode.
fn read_header<D: IO>(disk: &mut Disk<D>, addr: u64) -> (r: Result<(u8, u32), FsError>)
    ensures
        final(disk)@ == old(disk)@,
        final(disk).reliable() == old(disk).reliable(),
        old(disk).reliable() || r is Ok ==> r == stored_header(old(disk)@, addr as int),
{
    let bytes = lift(disk.read_bytes(addr, 5))?;
    Ok((bytes[0], get_u32(bytes.as_slice(), 1)))
}

impl Inode {
    /// Where the walk over the entries of a directory, which has come to offset
    /// `off` of the block with index `blk` and has passed `slot` entries, finds the
    /// entry with number `nbr`, on a reliable device that holds `img`. There is no
    /// such entry where the walk comes to a block that the inode does not refer to.
    pub open spec fn find_slot(self, img: Seq<u8>, blk: u32, off: u32, slot: int, nbr: u32) -> Result<
        (u32, u32, u32),
        FsError,
    >
        decreases MAX_BLOCKS - blk, 4096 - off,
    {
        match self.resolve(img, blk) {
            None => Err(FsError::NoEntry),
            Some(block) => match stored_header(img, block * 4096 + off) {
                Err(e) => Err(e),
                Ok(header) => {
                    let next = position_after(blk, off, 5 + header.0);
                    if slot == nbr || off > 3836 {
                        Ok((blk, off, slot as u32))
                    } else {
                        self.find_slot(img, next.0, next.1, slot + 1, nbr)
                    }
                },
            },
        }
    }

    /// The place of the entry with number `nbr`: the index of its block, its
    /// offset in the block, and its number.
    pub fn get_dir_entry_by_nbr<D: IO>(&mut self, fs: &mut FileSystem<D>, nbr: u32) -> (r: Result<
        (u32, u32, u32),
        FsError,
    >)
        ensures
            *final(self) == *old(self),
            final(fs)@ == old(fs)@,
            final(fs).reliable() == old(fs).reliable(),
            r matches Ok(at) ==> at.1 <= 3836,
            old(fs).reliable() ==> r == old(self).find_slot(old(fs)@.image, 0, 0, 0, nbr),
    {
        let mut blk_id: u32 = 0;
        let mut off: u32 = 0;
        let mut slot_id: u32 = 0;
        loop
            invariant
                *self == *old(self),
                fs@ == old(fs)@,
                fs.reliable() == old(fs).reliable(),
                blk_id <= MAX_BLOCKS,
                off <= 3836,
                slot_id <= blk_id * 768 + off / 5,
                fs.reliable() ==> self.find_slot(fs@.image, 0, 0, 0, nbr) == self.find_slot(
                    fs@.image,
                    blk_id,
                    off,
                    slot_id as int,
                    nbr,
                ),
            decreases MAX_BLOCKS - blk_id, 4096 - off,
        {
            let block = match self.get_block_id(blk_id, fs) {
                Some(b) => b,
                None => {
                    return Err(FsError::NoEntry);
                },
            };
            let header = read_header(&mut fs.disk, block as u64 * 4096 + off as u64)?;
            if slot_id == nbr {
                return Ok((blk_id, off, slot_id));
            }
            off += 5 + header.0 as u32;
            if off > DIRENTRY_LAST_OFFSET {
                blk_id += 1;
                off = 0;
            }
            slot_id += 1;
        }
    }

    /// Where the walk over the entries of a directory, which has come to offset
    /// `off` of the block with index `blk` and has passed `slot` entries, finds the
    /// first entry that marks a free place, on a reliable device that holds `img`.
    /// The last part of the result says whether there is one; where there is none,
    /// the rest is where the walk came to a block that the inode does not refer to.
    pub open spec fn find_free(self, img: Seq<u8>, blk: u32, off: u32, slot: int) -> Result<
        (u32, u32, u32, bool),
        FsError,
    >
        decreases MAX_BLOCKS - blk, 4096 - off,
    {
        match self.resolve(img, blk) {
            None => Ok((blk, off, slot as u32, false)),
            Some(block) => match stored_header(img, block * 4096 + off) {
                Err(e) => Err(e),
                Ok(header) => {
                    let next = position_after(blk, off, 5 + header.0);
                    if header.1 == 0 || header.0 == 0 || off > 3836 {
                        Ok((blk, off, slot as u32, true))
                    } else {
                        self.find_free(img, next.0, next.1, slot + 1)
                    }
                },
            },
        }
    }

    /// The first entry of the directory that marks a free place, if its blocks
    /// hold one.
    fn find_free_entry<D: IO>(&self, fs: &mut FileSystem<D>) -> (r: Result<
        (u32, u32, u32, bool),
        FsError,
    >)
        ensures
            final(fs)@ == old(fs)@,
            final(fs).reliable() == old(fs).reliable(),
            old(fs).reliable() ==> r == self.find_free(old(fs)@.image, 0, 0, 0),
    {
        let mut blk_id: u32 = 0;
        let mut off: u32 = 0;
        let mut slot_id: u32 = 0;
        loop
            invariant
                fs@ == old(fs)@,
                fs.reliable() == old(fs).reliable(),
                blk_id <= MAX_BLOCKS,
                off <= 3836,
                slot_id <= blk_id * 768 + off / 5,
                fs.reliable() ==> self.find_free(fs@.image, 0, 0, 0) == self.find_free(
                    fs@.image,
                    blk_id,
                    off,
                    slot_id as int,
                ),
            decreases MAX_BLOCKS - blk_id, 4096 - off,
        {
            let block = match self.get_block_id(blk_id, fs) {
                Some(b) => b,
                None => {
                    return Ok((blk_id, off, slot_id, false));
                },
            };
            let header = read_header(&mut fs.disk, block as u64 * 4096 + off as u64)?;
            if header.1 == 0 || header.0 == 0 {
                return Ok((blk_id, off, slot_id, true));
            }
            off += 5 + header.0 as u32;
            if off > DIRENTRY_LAST_OFFSET {
                blk_id += 1;
                off = 0;
            }
            slot_id += 1;
        }
    }

    /// The state, inode and result of `get_next_free_dir_entry_slot` on a reliable
    /// device: the place of the first entry that marks a free place; where the
    /// blocks of the directory hold none, the start of a block that the directory
    /// is extended by.
    #[verifier::opaque]
    pub open spec fn place_new(self, fs: FsState, slot: u32) -> (
        FsState,
        Inode,
        Result<(u32, u32, u32), FsError>,
    ) {
        let e = self.extend(fs, slot);
        match self.find_free(fs.image, 0, 0, 0) {
            Err(err) => (fs, self, Err(err)),
            Ok(found) => if found.3 {
                (fs, self, Ok((found.0, found.1, found.2)))
            } else {
                (
                    e.0,
                    e.1,
                    match e.2 {
                        Ok(index) => Ok((index, 0u32, found.2)),
                        Err(err) => Err(err),
                    },
                )
            },
        }
    }

    /// The place for a new entry: that of the first entry that marks a free
    /// place, or the start of a block that the directory is extended by.
    pub fn get_next_free_dir_entry_slot<D: IO>(&mut self, fs: &mut FileSystem<D>, my_inode_addr: u32) -> (r:
        Result<(u32, u32, u32), FsError>)
        ensures
            final(fs).reliable() == old(fs).reliable(),
            final(fs)@.image.len() == old(fs)@.image.len(),
            old(fs).reliable() ==> (final(fs)@, *final(self), r) == old(self).place_new(
                old(fs)@,
                my_inode_addr,
            ),
    {
        reveal(Inode::place_new);
        match self.find_free_entry(fs)? {
            (blk_id, off, slot_id, true) => Ok((blk_id, off, slot_id)),
            (_, _, slot_id, false) => {
                let blk_id = self.get_next_free_block(fs, my_inode_addr)?;
                Ok((blk_id, 0, slot_id))
            },
        }
    }

    /// The state, inode and result of `write_dir_entry` on a reliable device. An
    /// inode that is no directory is rejected. Else the entry is written over the
    /// entry with number `entry_nbr`; or, where no number is given, over the first
    /// entry that marks a free place, or at the start of a block that the
    /// directory is extended by. The result is the number of the entry written.
    pub open spec fn put_entry(self, fs: FsState, entry: Entry, entry_nbr: Option<u32>, slot: u32) -> (
        FsState,
        Inode,
        Result<u32, FsError>,
    ) {
        let place = match entry_nbr {
            Some(nbr) => (fs, self, self.find_slot(fs.image, 0, 0, 0, nbr)),
            None => self.place_new(fs, slot),
        };
        if self.type_and_permission.inode_type() != InodeType::Directory {
            (fs, self, Err(FsError::NoEntry))
        } else {
            match place.2 {
                Err(e) => (place.0, place.1, Err(e)),
                Ok(at) => match place.1.resolve(place.0.image, at.0) {
                    None => (place.0, place.1, Err(FsError::NoEntry)),
                    Some(block) => (
                        FsState {
                            image: splice(place.0.image, block * 4096 + at.1, entry.encode()),
                            superblock: place.0.superblock,
                        },
                        place.1,
                        if block * 4096 + at.1 + entry.encode().len() <= place.0.image.len() {
                            Ok(at.2)
                        } else {
                            Err(FsError::DiskError(DiskError::NotEnoughSpace))
                        },
                    ),
                },
            }
        }
    }

    /// Writes `dir_entry` into the directory: over the entry with number
    /// `entry_nbr`, or, where none is given, into the first free place. An inode
    /// that is no directory is rejected with `NoEntry`, and nothing changes.
    pub fn write_dir_entry<D: IO>(
        &mut self,
        fs: &mut FileSystem<D>,
        dir_entry: &DirEntry,
        entry_nbr: Option<u32>,
        my_inode_addr: u32,
    ) -> (r: Result<u32, FsError>)
        ensures
            final(fs).reliable() == old(fs).reliable(),
            final(fs)@.image.len() == old(fs)@.image.len(),
            old(self).type_and_permission.inode_type() != InodeType::Directory ==> r == Err::<
                u32,
                FsError,
            >(FsError::NoEntry) && final(fs)@ == old(fs)@ && *final(self) == *old(self),
            old(fs).reliable() ==> (final(fs)@, *final(self), r) == old(self).put_entry(
                old(fs)@,
                dir_entry@,
                entry_nbr,
                my_inode_addr,
            ),
    {
        if self.type_and_permission.get_type() != InodeType::Directory {
            return Err(FsError::NoEntry);
        }
        let (blk_id, off, entry_nbr) = match entry_nbr {
            Some(v) => self.get_dir_entry_by_nbr(fs, v)?,
            None => self.get_next_free_dir_entry_slot(fs, my_inode_addr)?,
        };
        let addr = match self.get_block_id(blk_id, fs) {
            Some(a) => a,
            None => {
                return Err(FsError::NoEntry);
            },
        };
        dir_entry.write_to_disk(&mut fs.disk, addr as u64 * 4096 + off as u64)?;
        Ok(entry_nbr)
    }
}

} // verus!
