//! The block device: a byte-addressed store of fixed size.

use crate::codec::{get_u32, le_bytes, le_u32, put_u32, span, splice, zeros};
use vstd::prelude::*;
use vstd::slice::slice_subrange;

verus! {

/// What a device reports: that a transfer ran past its end, or any other fault.
#[derive(Debug)]
pub enum DiskError {
    NotEnoughSpace,
    GenericError,
}

/// How many bytes a transfer of `len` bytes at `addr` moves on a device of `size`
/// bytes: all that lie below the device's end.
pub open spec fn transfer_len(size: nat, addr: u64, len: nat) -> nat {
    if addr >= size {
        0
    } else if addr + len <= size {
        len
    } else {
        (size - addr) as nat
    }
}

/// Whether a transfer of `len` bytes at `addr` lies within a device of `size` bytes.
pub open spec fn in_range(size: nat, addr: u64, len: nat) -> bool {
    len == 0 || addr + len <= size
}

/// A read buffer after `n` bytes of `img` from `addr` on were put at its front.
pub open spec fn filled(buf: Seq<u8>, img: Seq<u8>, addr: u64, n: nat) -> Seq<u8> {
    Seq::new(
        buf.len(),
        |i: int|
            if i < n {
                img[addr + i]
            } else {
                buf[i]
            },
    )
}

/// What a lossy read of `img` at `addr` may return, and what it leaves in the buffer.
pub open spec fn lossy_read_ok(
    img: Seq<u8>,
    reliable: bool,
    addr: u64,
    before: Seq<u8>,
    after: Seq<u8>,
    r: Result<usize, DiskError>,
) -> bool {
    &&& after.len() == before.len()
    &&& match r {
        Ok(n) => n <= transfer_len(img.len(), addr, before.len()) && after == filled(
            before,
            img,
            addr,
            n as nat,
        ),
        Err(_) => !reliable,
    }
    &&& reliable ==> r is Ok && r->Ok_0 == transfer_len(img.len(), addr, before.len())
    &&& img.len() <= u64::MAX
}

/// What a lossy write of `buf` at `addr` may return, and what it leaves on the device.
pub open spec fn lossy_write_ok(
    before: Seq<u8>,
    after: Seq<u8>,
    reliable: bool,
    addr: u64,
    buf: Seq<u8>,
    r: Result<usize, DiskError>,
) -> bool {
    &&& after.len() == before.len()
    &&& match r {
        Ok(n) => n <= transfer_len(before.len(), addr, buf.len()) && after == splice(
            before,
            addr as int,
            buf.take(n as int),
        ),
        Err(_) => !reliable,
    }
    &&& reliable ==> r is Ok && r->Ok_0 == transfer_len(before.len(), addr, buf.len())
    &&& before.len() <= u64::MAX
}

/// What an exact read of `img` at `addr` may return, and what it leaves in the buffer:
/// on success the buffer holds the bytes from `addr` on, and a reliable device
/// fails only where the range runs past its end.
pub open spec fn exact_read_ok(
    img: Seq<u8>,
    reliable: bool,
    addr: u64,
    before: Seq<u8>,
    after: Seq<u8>,
    r: Result<(), DiskError>,
) -> bool {
    &&& after.len() == before.len()
    &&& match r {
        Ok(_) => in_range(img.len(), addr, before.len()) && after == filled(
            before,
            img,
            addr,
            before.len(),
        ),
        Err(e) => !reliable || (e is NotEnoughSpace && !in_range(img.len(), addr, before.len())),
    }
    &&& reliable ==> (r is Ok <==> in_range(img.len(), addr, before.len()))
    &&& img.len() <= u64::MAX
}

/// What an exact write of `buf` at `addr` may return, and what it leaves on the
/// device: on success the bytes of `buf` from `addr` on. A reliable device writes
/// what lies within it even where it then fails, and fails only where the range
/// runs past its end.
pub open spec fn exact_write_ok(
    before: Seq<u8>,
    after: Seq<u8>,
    reliable: bool,
    addr: u64,
    buf: Seq<u8>,
    r: Result<(), DiskError>,
) -> bool {
    &&& after.len() == before.len()
    &&& match r {
        Ok(_) => in_range(before.len(), addr, buf.len()) && after == splice(
            before,
            addr as int,
            buf,
        ),
        Err(e) => !reliable || (e is NotEnoughSpace && !in_range(before.len(), addr, buf.len())),
    }
    &&& reliable ==> after == splice(before, addr as int, buf) && (r is Ok <==> in_range(
        before.len(),
        addr,
        buf.len(),
    ))
    &&& before.len() <= u64::MAX
}

/// A byte-addressed device. It holds at most as many bytes as there are addresses.
pub trait IO {
    /// The bytes that the device holds.
    spec fn bytes(&self) -> Seq<u8>;

    /// Whether the device never reports an error and moves every byte that lies
    /// within it.
    spec fn reliable(&self) -> bool;

    /// Reads up to `buf.len()` bytes from `addr` on into the front of `buf`, and
    /// returns how many.
    fn read_lossy(&mut self, addr: u64, buf: &mut [u8]) -> (r: Result<usize, DiskError>)
        ensures
            final(self).bytes() == old(self).bytes(),
            final(self).reliable() == old(self).reliable(),
            lossy_read_ok(old(self).bytes(), old(self).reliable(), addr, old(buf)@, final(buf)@, r),
    ;

    /// Writes up to `buf.len()` bytes from the front of `buf` to `addr` on, and
    /// returns how many.
    fn write_lossy(&mut self, addr: u64, buf: &[u8]) -> (r: Result<usize, DiskError>)
        ensures
            final(self).reliable() == old(self).reliable(),
            lossy_write_ok(
                old(self).bytes(),
                final(self).bytes(),
                old(self).reliable(),
                addr,
                buf@,
                r,
            ),
    ;

    /// Fills `buf` from `addr` on, or fails with `NotEnoughSpace` where the device
    /// gave fewer bytes.
    fn read_exact(&mut self, addr: u64, buf: &mut [u8]) -> (r: Result<(), DiskError>)
        ensures
            final(self).bytes() == old(self).bytes(),
            final(self).reliable() == old(self).reliable(),
            exact_read_ok(old(self).bytes(), old(self).reliable(), addr, old(buf)@, final(buf)@, r),
    {
        let n = self.read_lossy(addr, buf)?;
        if n != buf.len() {
            Err(DiskError::NotEnoughSpace)
        } else {
            Ok(())
        }
    }

    /// Writes all of `buf` from `addr` on, or fails with `NotEnoughSpace` where the
    /// device took fewer bytes; what it took stays written.
    fn write_exact(&mut self, addr: u64, buf: &[u8]) -> (r: Result<(), DiskError>)
        ensures
            final(self).reliable() == old(self).reliable(),
            exact_write_ok(
                old(self).bytes(),
                final(self).bytes(),
                old(self).reliable(),
                addr,
                buf@,
                r,
            ),
    {
        let n = self.write_lossy(addr, buf)?;
        proof {
            let k = transfer_len(old(self).bytes().len(), addr, buf@.len());
            assert(n == k ==> splice(old(self).bytes(), addr as int, buf@.take(n as int)) =~= splice(
                old(self).bytes(),
                addr as int,
                buf@,
            ));
            assert(n == buf@.len() ==> buf@.take(n as int) =~= buf@);
        }
        if n != buf.len() {
            Err(DiskError::NotEnoughSpace)
        } else {
            Ok(())
        }
    }
}

/// Memory as a device: it holds the vector's bytes, and is reliable.
impl IO for Vec<u8> {
    open spec fn bytes(&self) -> Seq<u8> {
        self@
    }

    open spec fn reliable(&self) -> bool {
        true
    }

    fn read_lossy(&mut self, addr: u64, buf: &mut [u8]) -> (r: Result<usize, DiskError>) {
        let size: usize = self.len();
        let len: usize = buf.len();
        if addr >= size as u64 {
            assert(buf@ =~= filled(old(buf)@, self@, addr, 0));
            return Ok(0);
        }
        let start: usize = addr as usize;
        let n: usize = if len <= size - start {
            len
        } else {
            size - start
        };
        let mut i: usize = 0;
        while i < n
            invariant
                i <= n,
                n <= len,
                start + n <= size,
                size == self@.len(),
                len == buf@.len(),
                start == addr,
                *self == *old(self),
                buf@ == filled(old(buf)@, self@, addr, i as nat),
            decreases n - i,
        {
            buf[i] = self[start + i];
            i += 1;
            assert(buf@ =~= filled(old(buf)@, self@, addr, i as nat));
        }
        Ok(n)
    }

    fn write_lossy(&mut self, addr: u64, buf: &[u8]) -> (r: Result<usize, DiskError>) {
        let size: usize = self.len();
        let len: usize = buf.len();
        if addr >= size as u64 {
            assert(self@ =~= splice(old(self)@, addr as int, buf@.take(0)));
            return Ok(0);
        }
        let start: usize = addr as usize;
        let n: usize = if len <= size - start {
            len
        } else {
            size - start
        };
        let mut i: usize = 0;
        while i < n
            invariant
                i <= n,
                n <= len,
                start + n <= size,
                size == self@.len(),
                len == buf@.len(),
                start == addr,
                self@ == splice(old(self)@, addr as int, buf@.take(i as int)),
            decreases n - i,
        {
            self[start + i] = buf[i];
            i += 1;
            assert(self@ =~= splice(old(self)@, addr as int, buf@.take(i as int)));
        }
        Ok(n)
    }
}

/// A device, with typed access to what it holds.
pub struct Disk<D: IO>(D);

impl<D: IO> Disk<D> {
    /// The bytes that the device holds.
    pub closed spec fn view(&self) -> Seq<u8> {
        self.0.bytes()
    }

    /// Whether the device never reports an error and moves every byte that lies
    /// within it.
    pub closed spec fn reliable(&self) -> bool {
        self.0.reliable()
    }

    /// The device `io`, with typed access.
    pub fn new(io: D) -> (disk: Self)
        ensures
            disk@ == io.bytes(),
            disk.reliable() == io.reliable(),
    {
        Disk(io)
    }

    /// Reads up to `buf.len()` bytes from `addr` on into the front of `buf`, and
    /// returns how many.
    pub fn read_lossy(&mut self, addr: u64, buf: &mut [u8]) -> (r: Result<usize, DiskError>)
        ensures
            final(self)@ == old(self)@,
            final(self).reliable() == old(self).reliable(),
            lossy_read_ok(old(self)@, old(self).reliable(), addr, old(buf)@, final(buf)@, r),
    {
        self.0.read_lossy(addr, buf)
    }

    /// Writes up to `buf.len()` bytes from the front of `buf` to `addr` on, and
    /// returns how many.
    pub fn write_lossy(&mut self, addr: u64, buf: &[u8]) -> (r: Result<usize, DiskError>)
        ensures
            final(self).reliable() == old(self).reliable(),
            lossy_write_ok(old(self)@, final(self)@, old(self).reliable(), addr, buf@, r),
    {
        self.0.write_lossy(addr, buf)
    }

    /// Fills `buf` from `addr` on, or fails with `NotEnoughSpace`.
    pub fn read_exact(&mut self, addr: u64, buf: &mut [u8]) -> (r: Result<(), DiskError>)
        ensures
            final(self)@ == old(self)@,
            final(self).reliable() == old(self).reliable(),
            exact_read_ok(old(self)@, old(self).reliable(), addr, old(buf)@, final(buf)@, r),
    {
        self.0.read_exact(addr, buf)
    }

    /// Writes all of `buf` from `addr` on, or fails with `NotEnoughSpace`; what
    /// fitted stays written.
    pub fn write_exact(&mut self, addr: u64, buf: &[u8]) -> (r: Result<(), DiskError>)
        ensures
            final(self).reliable() == old(self).reliable(),
            exact_write_ok(old(self)@, final(self)@, old(self).reliable(), addr, buf@, r),
    {
        self.0.write_exact(addr, buf)
    }

    /// Reads `len` bytes from `addr` on.
    pub fn read_bytes(&mut self, addr: u64, len: usize) -> (r: Result<Vec<u8>, DiskError>)
        ensures
            final(self)@ == old(self)@,
            final(self).reliable() == old(self).reliable(),
            match r {
                Ok(v) => in_range(old(self)@.len(), addr, len as nat) && v@ == span(
                    old(self)@,
                    addr as int,
                    len as nat,
                ),
                Err(e) => !old(self).reliable() || (e is NotEnoughSpace && !in_range(
                    old(self)@.len(),
                    addr,
                    len as nat,
                )),
            },
            old(self).reliable() ==> (r is Ok <==> in_range(old(self)@.len(), addr, len as nat)),
    {
        let mut v: Vec<u8> = vec![0u8; len];
        self.0.read_exact(addr, v.as_mut_slice())?;
        assert(v@ =~= span(old(self)@, addr as int, len as nat));
        Ok(v)
    }

    /// Reads the byte at `addr`.
    pub fn read_u8(&mut self, addr: u64) -> (r: Result<u8, DiskError>)
        ensures
            final(self)@ == old(self)@,
            final(self).reliable() == old(self).reliable(),
            match r {
                Ok(v) => addr < old(self)@.len() && v == old(self)@[addr as int],
                Err(e) => !old(self).reliable() || (e is NotEnoughSpace && addr >= old(self)@.len()),
            },
            old(self).reliable() ==> (r is Ok <==> addr < old(self)@.len()),
    {
        let v = self.read_bytes(addr, 1)?;
        Ok(v[0])
    }

    /// Reads the little-endian 32-bit value at `addr`.
    pub fn read_u32(&mut self, addr: u64) -> (r: Result<u32, DiskError>)
        ensures
            final(self)@ == old(self)@,
            final(self).reliable() == old(self).reliable(),
            match r {
                Ok(v) => addr + 4 <= old(self)@.len() && v == le_u32(old(self)@, addr as int),
                Err(e) => !old(self).reliable() || (e is NotEnoughSpace && addr + 4 > old(
                    self,
                )@.len()),
            },
            old(self).reliable() ==> (r is Ok <==> addr + 4 <= old(self)@.len()),
    {
        let v = self.read_bytes(addr, 4)?;
        Ok(get_u32(v.as_slice(), 0))
    }

    /// Writes the byte `value` at `addr`.
    pub fn write_u8(&mut self, addr: u64, value: u8) -> (r: Result<(), DiskError>)
        ensures
            final(self).reliable() == old(self).reliable(),
            exact_write_ok(old(self)@, final(self)@, old(self).reliable(), addr, seq![value], r),
    {
        let mut v: Vec<u8> = Vec::new();
        v.push(value);
        assert(v@ =~= seq![value]);
        self.0.write_exact(addr, v.as_slice())
    }

    /// Writes the little-endian form of `value` at `addr`.
    pub fn write_u32(&mut self, addr: u64, value: u32) -> (r: Result<(), DiskError>)
        ensures
            final(self).reliable() == old(self).reliable(),
            exact_write_ok(
                old(self)@,
                final(self)@,
                old(self).reliable(),
                addr,
                le_bytes(value as int, 4),
                r,
            ),
    {
        let mut v: Vec<u8> = Vec::new();
        put_u32(&mut v, value);
        assert(v@ =~= le_bytes(value as int, 4));
        self.0.write_exact(addr, v.as_slice())
    }

    /// Reads the device from its start to its end.
    pub fn to_vec(&mut self) -> (r: Result<Vec<u8>, DiskError>)
        ensures
            final(self)@ == old(self)@,
            final(self).reliable() == old(self).reliable(),
            r matches Ok(v) ==> v@ == old(self)@.take(v@.len() as int),
            old(self).reliable() ==> r is Ok && r->Ok_0@ == old(self)@,
    {
        let mut vec: Vec<u8> = Vec::new();
        let mut block: Vec<u8> = vec![0u8; 4096];
        let mut addr: u64 = 0;
        loop
            invariant
                self@ == old(self)@,
                self.reliable() == old(self).reliable(),
                block@.len() == 4096,
                addr == vec@.len(),
                addr <= self@.len(),
                vec@ == self@.take(addr as int),
            decreases self@.len() - addr,
        {
            let read = self.0.read_lossy(addr, block.as_mut_slice())?;
            if read == 0 {
                assert(self.reliable() ==> addr == self@.len());
                assert(self@.take(self@.len() as int) =~= self@);
                return Ok(vec);
            }
            let ghost before = vec@;
            vec.extend_from_slice(slice_subrange(block.as_slice(), 0, read));
            addr += read as u64;
            assert(vec@ =~= self@.take(addr as int));
        }
    }

    /// Copies the device to `other`, from the start on, and returns how many bytes
    /// the device holds. Fails where `other` is the smaller one.
    pub fn duplicate<O: IO>(&mut self, other: &mut O) -> (r: Result<u64, DiskError>)
        ensures
            final(self)@ == old(self)@,
            final(self).reliable() == old(self).reliable(),
            final(other).reliable() == old(other).reliable(),
            final(other).bytes().len() == old(other).bytes().len(),
            r matches Ok(n) ==> n <= old(self)@.len() && final(other).bytes() == splice(
                old(other).bytes(),
                0,
                old(self)@.take(n as int),
            ),
            old(self).reliable() && old(other).reliable() ==> final(other).bytes() == splice(
                old(other).bytes(),
                0,
                old(self)@,
            ) && if old(self)@.len() <= old(other).bytes().len() {
                r == Ok::<u64, DiskError>(old(self)@.len() as u64)
            } else {
                r == Err::<u64, DiskError>(DiskError::NotEnoughSpace)
            },
    {
        let mut block: Vec<u8> = vec![0u8; 4096];
        let mut addr: u64 = 0;
        loop
            invariant
                self@ == old(self)@,
                self.reliable() == old(self).reliable(),
                block@.len() == 4096,
                addr <= self@.len(),
                other.reliable() == old(other).reliable(),
                other.bytes().len() == old(other).bytes().len(),
                other.bytes() == splice(old(other).bytes(), 0, self@.take(addr as int)),
                self.reliable() && other.reliable() ==> addr <= other.bytes().len(),
            decreases self@.len() - addr,
        {
            let read = self.0.read_lossy(addr, block.as_mut_slice())?;
            if read == 0 {
                proof {
                    if self.reliable() {
                        assert(self@.take(addr as int) =~= self@);
                    }
                }
                return Ok(addr);
            }
            let chunk = slice_subrange(block.as_slice(), 0, read);
            let ghost mid = other.bytes();
            let w = other.write_exact(addr, chunk);
            proof {
                assert(chunk@ =~= self@.subrange(addr as int, addr + read));
                if w is Ok || (self.reliable() && other.reliable()) {
                    assert(other.bytes() =~= splice(
                        old(other).bytes(),
                        0,
                        self@.take(addr + read),
                    ));
                }
                if self.reliable() && other.reliable() && w is Err {
                    assert(splice(old(other).bytes(), 0, self@.take(addr + read)) =~= splice(
                        old(other).bytes(),
                        0,
                        self@,
                    ));
                }
            }
            w?;
            addr += read as u64;
        }
    }
}

impl Disk<Vec<u8>> {
    /// A device in memory of `blocks` blocks of 4096 bytes, all zero.
    pub fn new_virtual(blocks: u32) -> (disk: Self)
        requires
            blocks * 4096 <= usize::MAX,
        ensures
            disk@ == zeros((blocks * 4096) as nat),
            disk.reliable(),
    {
        let v: Vec<u8> = vec![0u8; blocks as usize * 4096];
        assert(v@ =~= zeros((blocks * 4096) as nat));
        Disk(v)
    }
}

} // verus!
