//! Little-endian integers as byte sequences, and the splice of bytes into an image.

use vstd::prelude::*;

verus! {

/// The image `img` with `data` written over it from address `addr` on.
/// Bytes of `data` that would fall outside the image are dropped.
pub open spec fn splice(img: Seq<u8>, addr: int, data: Seq<u8>) -> Seq<u8> {
    Seq::new(
        img.len(),
        |i: int|
            if addr <= i < addr + data.len() {
                data[i - addr]
            } else {
                img[i]
            },
    )
}

/// The `len` bytes of `img` from `addr` on.
pub open spec fn span(img: Seq<u8>, addr: int, len: nat) -> Seq<u8> {
    Seq::new(len, |i: int| img[addr + i])
}

/// `len` zero bytes.
pub open spec fn zeros(len: nat) -> Seq<u8> {
    Seq::new(len, |i: int| 0u8)
}

/// Byte `k` of the little-endian form of `v`.
pub open spec fn le_byte(v: int, k: int) -> u8 {
    if k == 0 {
        (v % 256) as u8
    } else if k == 1 {
        (v / 0x100 % 256) as u8
    } else if k == 2 {
        (v / 0x1_0000 % 256) as u8
    } else if k == 3 {
        (v / 0x100_0000 % 256) as u8
    } else if k == 4 {
        (v / 0x1_0000_0000 % 256) as u8
    } else if k == 5 {
        (v / 0x100_0000_0000 % 256) as u8
    } else if k == 6 {
        (v / 0x1_0000_0000_0000 % 256) as u8
    } else {
        (v / 0x100_0000_0000_0000 % 256) as u8
    }
}

/// The little-endian form of `v` in `width` bytes (at most 8).
pub open spec fn le_bytes(v: int, width: nat) -> Seq<u8> {
    Seq::new(width, |k: int| le_byte(v, k))
}

/// The 16-bit value whose little-endian form starts at `at` in `s`.
pub open spec fn le_u16(s: Seq<u8>, at: int) -> u16 {
    (s[at] as int + s[at + 1] as int * 0x100) as u16
}

/// The 32-bit value whose little-endian form starts at `at` in `s`.
pub open spec fn le_u32(s: Seq<u8>, at: int) -> u32 {
    (s[at] as int + s[at + 1] as int * 0x100 + s[at + 2] as int * 0x1_0000 + s[at + 3] as int
        * 0x100_0000) as u32
}

/// The 64-bit value whose little-endian form starts at `at` in `s`.
pub open spec fn le_u64(s: Seq<u8>, at: int) -> u64 {
    (le_u32(s, at) as int + le_u32(s, at + 4) as int * 0x1_0000_0000) as u64
}

/// A 16-bit value is the sum of its two little-endian bytes, each at its weight.
pub proof fn lemma_le_sum_u16(v: u16)
    ensures
        le_byte(v as int, 0) as int + le_byte(v as int, 1) as int * 0x100 == v,
{
}

/// A 32-bit value is the sum of its four little-endian bytes, each at its weight.
pub proof fn lemma_le_sum_u32(v: u32)
    ensures
        le_byte(v as int, 0) as int + le_byte(v as int, 1) as int * 0x100 + le_byte(v as int, 2) as int
            * 0x1_0000 + le_byte(v as int, 3) as int * 0x100_0000 == v,
{
}

/// The low four bytes of a 64-bit value are those of its low half, the high four
/// those of its high half.
pub proof fn lemma_le_halves(v: u64)
    ensures
        forall|k: int|
            0 <= k < 4 ==> #[trigger] le_byte(v as int, k) == le_byte(
                (v % 0x1_0000_0000) as int,
                k,
            ),
        forall|k: int|
            0 <= k < 4 ==> #[trigger] le_byte(v as int, k + 4) == le_byte(
                (v / 0x1_0000_0000) as int,
                k,
            ),
{
    assert(v % 256 == (v % 0x1_0000_0000) % 256) by (bit_vector);
    assert(v / 0x100 % 256 == (v % 0x1_0000_0000) / 0x100 % 256) by (bit_vector);
    assert(v / 0x1_0000 % 256 == (v % 0x1_0000_0000) / 0x1_0000 % 256) by (bit_vector);
    assert(v / 0x100_0000 % 256 == (v % 0x1_0000_0000) / 0x100_0000 % 256) by (bit_vector);
    assert(v / 0x100_0000_0000 % 256 == (v / 0x1_0000_0000) / 0x100 % 256) by (bit_vector);
    assert(v / 0x1_0000_0000_0000 % 256 == (v / 0x1_0000_0000) / 0x1_0000 % 256) by (bit_vector);
    assert(v / 0x100_0000_0000_0000 % 256 == (v / 0x1_0000_0000) / 0x100_0000 % 256)
        by (bit_vector);
}

/// Decoding the little-endian form of a 16-bit value gives the value back.
pub proof fn lemma_le_u16_round_trip(s: Seq<u8>, at: int, v: u16)
    requires
        0 <= at,
        at + 2 <= s.len(),
        s.subrange(at, at + 2) == le_bytes(v as int, 2),
    ensures
        le_u16(s, at) == v,
{
    let t = s.subrange(at, at + 2);
    assert(s[at] == t[0] && s[at + 1] == t[1]);
    lemma_le_sum_u16(v);
}

/// Decoding the little-endian form of a 32-bit value gives the value back.
pub proof fn lemma_le_u32_round_trip(s: Seq<u8>, at: int, v: u32)
    requires
        0 <= at,
        at + 4 <= s.len(),
        s.subrange(at, at + 4) == le_bytes(v as int, 4),
    ensures
        le_u32(s, at) == v,
{
    let t = s.subrange(at, at + 4);
    assert(s[at] == t[0] && s[at + 1] == t[1] && s[at + 2] == t[2] && s[at + 3] == t[3]);
    lemma_le_sum_u32(v);
}

/// Decoding the little-endian form of a 64-bit value gives the value back.
pub proof fn lemma_le_u64_round_trip(s: Seq<u8>, at: int, v: u64)
    requires
        0 <= at,
        at + 8 <= s.len(),
        s.subrange(at, at + 8) == le_bytes(v as int, 8),
    ensures
        le_u64(s, at) == v,
{
    let t = s.subrange(at, at + 8);
    let lo: u32 = (v % 0x1_0000_0000) as u32;
    let hi: u32 = (v / 0x1_0000_0000) as u32;
    lemma_le_halves(v);
    assert(s.subrange(at, at + 4) =~= le_bytes(lo as int, 4)) by {
        assert forall|k: int| 0 <= k < 4 implies s.subrange(at, at + 4)[k] == le_byte(
            lo as int,
            k,
        ) by {
            assert(s[at + k] == t[k]);
        }
    }
    assert(s.subrange(at + 4, at + 8) =~= le_bytes(hi as int, 4)) by {
        assert forall|k: int| 0 <= k < 4 implies s.subrange(at + 4, at + 8)[k] == le_byte(
            hi as int,
            k,
        ) by {
            assert(s[at + 4 + k] == t[k + 4]);
        }
    }
    lemma_le_u32_round_trip(s, at, lo);
    lemma_le_u32_round_trip(s, at + 4, hi);
}

/// Appends the little-endian form of `v` to `out`.
pub fn put_u16(out: &mut Vec<u8>, v: u16)
    ensures
        final(out)@ == old(out)@ + le_bytes(v as int, 2),
{
    out.push((v % 256) as u8);
    out.push((v / 0x100) as u8);
    assert(final(out)@ =~= old(out)@ + le_bytes(v as int, 2));
}

/// Appends the little-endian form of `v` to `out`.
pub fn put_u32(out: &mut Vec<u8>, v: u32)
    ensures
        final(out)@ == old(out)@ + le_bytes(v as int, 4),
{
    out.push((v % 256) as u8);
    out.push((v / 0x100 % 256) as u8);
    out.push((v / 0x1_0000 % 256) as u8);
    out.push((v / 0x100_0000) as u8);
    assert(final(out)@ =~= old(out)@ + le_bytes(v as int, 4));
}

/// Appends the little-endian form of `v` to `out`.
pub fn put_u64(out: &mut Vec<u8>, v: u64)
    ensures
        final(out)@ == old(out)@ + le_bytes(v as int, 8),
{
    out.push((v % 256) as u8);
    out.push((v / 0x100 % 256) as u8);
    out.push((v / 0x1_0000 % 256) as u8);
    out.push((v / 0x100_0000 % 256) as u8);
    out.push((v / 0x1_0000_0000 % 256) as u8);
    out.push((v / 0x100_0000_0000 % 256) as u8);
    out.push((v / 0x1_0000_0000_0000 % 256) as u8);
    out.push((v / 0x100_0000_0000_0000) as u8);
    assert(final(out)@ =~= old(out)@ + le_bytes(v as int, 8));
}

/// Copies `src` into `buf` from index `at` on.
pub fn copy_into(buf: &mut [u8], at: usize, src: &[u8])
    requires
        at + src@.len() <= old(buf)@.len(),
    ensures
        final(buf)@ == splice(old(buf)@, at as int, src@),
{
    let n: usize = src.len();
    let m: usize = buf.len();
    let mut j: usize = 0;
    while j < n
        invariant
            j <= n,
            n == src@.len(),
            m == buf@.len(),
            at + n <= buf@.len(),
            buf@.len() == old(buf)@.len(),
            buf@ == splice(old(buf)@, at as int, src@.take(j as int)),
        decreases n - j,
    {
        buf[at + j] = src[j];
        j += 1;
        assert(buf@ =~= splice(old(buf)@, at as int, src@.take(j as int)));
    }
    assert(src@.take(n as int) =~= src@);
}

/// Reads the little-endian 16-bit value that starts at `at`.
pub fn get_u16(s: &[u8], at: usize) -> (v: u16)
    requires
        at + 2 <= s@.len(),
    ensures
        v == le_u16(s@, at as int),
{
    s[at] as u16 + s[at + 1] as u16 * 0x100
}

/// Reads the little-endian 32-bit value that starts at `at`.
pub fn get_u32(s: &[u8], at: usize) -> (v: u32)
    requires
        at + 4 <= s@.len(),
    ensures
        v == le_u32(s@, at as int),
{
    s[at] as u32 + s[at + 1] as u32 * 0x100 + s[at + 2] as u32 * 0x1_0000 + s[at + 3] as u32
        * 0x100_0000
}

/// Reads the little-endian 64-bit value that starts at `at`.
pub fn get_u64(s: &[u8], at: usize) -> (v: u64)
    requires
        at + 8 <= s@.len(),
    ensures
        v == le_u64(s@, at as int),
{
    let n: usize = s.len();
    get_u32(s, at) as u64 + get_u32(s, at + 4) as u64 * 0x1_0000_0000
}

} // verus!
