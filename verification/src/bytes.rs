//! Little-endian encoding of integers in byte buffers.
use vstd::prelude::*;

verus! {

/// The little-endian value of the eight bytes of `s` starting at `off`.
pub open spec fn le_u64(s: Seq<u8>, off: int) -> u64 {
    le8(s[off], s[off + 1], s[off + 2], s[off + 3], s[off + 4], s[off + 5], s[off + 6], s[off + 7])
}

/// The little-endian value of eight bytes.
pub open spec fn le8(b0: u8, b1: u8, b2: u8, b3: u8, b4: u8, b5: u8, b6: u8, b7: u8) -> u64 {
    (b0 as u64) | ((b1 as u64) << 8u64) | ((b2 as u64) << 16u64) | ((b3 as u64) << 24u64) | ((
    b4 as u64) << 32u64) | ((b5 as u64) << 40u64) | ((b6 as u64) << 48u64) | ((b7 as u64)
        << 56u64)
}

/// The eight little-endian bytes of `v`.
pub open spec fn u64_le(v: u64) -> Seq<u8> {
    seq![
        (v & 0xffu64) as u8,
        ((v >> 8u64) & 0xffu64) as u8,
        ((v >> 16u64) & 0xffu64) as u8,
        ((v >> 24u64) & 0xffu64) as u8,
        ((v >> 32u64) & 0xffu64) as u8,
        ((v >> 40u64) & 0xffu64) as u8,
        ((v >> 48u64) & 0xffu64) as u8,
        ((v >> 56u64) & 0xffu64) as u8,
    ]
}

/// The little-endian value of the four bytes of `s` starting at `off`.
pub open spec fn le_u32(s: Seq<u8>, off: int) -> u32 {
    le4(s[off], s[off + 1], s[off + 2], s[off + 3])
}

/// The little-endian value of four bytes.
pub open spec fn le4(b0: u8, b1: u8, b2: u8, b3: u8) -> u32 {
    (b0 as u32) | ((b1 as u32) << 8u32) | ((b2 as u32) << 16u32) | ((b3 as u32) << 24u32)
}

/// The four little-endian bytes of `v`.
pub open spec fn u32_le(v: u32) -> Seq<u8> {
    seq![
        (v & 0xffu32) as u8,
        ((v >> 8u32) & 0xffu32) as u8,
        ((v >> 16u32) & 0xffu32) as u8,
        ((v >> 24u32) & 0xffu32) as u8,
    ]
}

/// The little-endian value of the two bytes of `s` starting at `off`.
pub open spec fn le_u16(s: Seq<u8>, off: int) -> u16 {
    ((s[off] as u16) | ((s[off + 1] as u16) << 8u16)) as u16
}

/// Decoding the encoding of `v` gives `v` back.
pub proof fn lemma_u64_roundtrip(v: u64)
    ensures
        le_u64(u64_le(v), 0) == v,
{
    assert(le8(
        (v & 0xffu64) as u8,
        ((v >> 8u64) & 0xffu64) as u8,
        ((v >> 16u64) & 0xffu64) as u8,
        ((v >> 24u64) & 0xffu64) as u8,
        ((v >> 32u64) & 0xffu64) as u8,
        ((v >> 40u64) & 0xffu64) as u8,
        ((v >> 48u64) & 0xffu64) as u8,
        ((v >> 56u64) & 0xffu64) as u8,
    ) == v) by (bit_vector);
}

/// Decoding the encoding of `v` gives `v` back.
pub proof fn lemma_u32_roundtrip(v: u32)
    ensures
        le_u32(u32_le(v), 0) == v,
{
    assert(le4(
        (v & 0xffu32) as u8,
        ((v >> 8u32) & 0xffu32) as u8,
        ((v >> 16u32) & 0xffu32) as u8,
        ((v >> 24u32) & 0xffu32) as u8,
    ) == v) by (bit_vector);
}

/// Reading eight bytes as a word and writing the word back gives the same
/// bytes.
pub proof fn lemma_le_u64_bytes(s: Seq<u8>, off: int)
    requires
        0 <= off,
        off + 8 <= s.len(),
    ensures
        u64_le(le_u64(s, off)) == s.subrange(off, off + 8),
{
    let (b0, b1, b2, b3, b4, b5, b6, b7) = (s[off], s[off + 1], s[off + 2], s[off + 3], s[off + 4], s[off + 5], s[off + 6], s[off + 7]);
    let v = le_u64(s, off);
    assert(v == le8(b0, b1, b2, b3, b4, b5, b6, b7));
    assert((v & 0xffu64) as u8 == b0 && ((v >> 8u64) & 0xffu64) as u8 == b1 && ((v >> 16u64) & 0xffu64) as u8 == b2
        && ((v >> 24u64) & 0xffu64) as u8 == b3 && ((v >> 32u64) & 0xffu64) as u8 == b4
        && ((v >> 40u64) & 0xffu64) as u8 == b5 && ((v >> 48u64) & 0xffu64) as u8 == b6
        && ((v >> 56u64) & 0xffu64) as u8 == b7) by (bit_vector)
        requires
            v == (b0 as u64) | ((b1 as u64) << 8u64) | ((b2 as u64) << 16u64) | ((b3 as u64) << 24u64) | ((
            b4 as u64) << 32u64) | ((b5 as u64) << 40u64) | ((b6 as u64) << 48u64) | ((b7 as u64)
                << 56u64),
    ;
    assert(u64_le(v) =~= s.subrange(off, off + 8));
}

/// Reading four bytes as a word and writing the word back gives the same
/// bytes.
pub proof fn lemma_le_u32_bytes(s: Seq<u8>, off: int)
    requires
        0 <= off,
        off + 4 <= s.len(),
    ensures
        u32_le(le_u32(s, off)) == s.subrange(off, off + 4),
{
    let (b0, b1, b2, b3) = (s[off], s[off + 1], s[off + 2], s[off + 3]);
    let v = le_u32(s, off);
    assert(v == le4(b0, b1, b2, b3));
    assert((v & 0xffu32) as u8 == b0 && ((v >> 8u32) & 0xffu32) as u8 == b1 && ((v >> 16u32) & 0xffu32) as u8 == b2
        && ((v >> 24u32) & 0xffu32) as u8 == b3) by (bit_vector)
        requires
            v == (b0 as u32) | ((b1 as u32) << 8u32) | ((b2 as u32) << 16u32) | ((b3 as u32) << 24u32),
    ;
    assert(u32_le(v) =~= s.subrange(off, off + 4));
}

/// Reads the little-endian `u64` at `off`.
pub fn read_u64(buf: &[u8], off: usize) -> (r: u64)
    requires
        off + 8 <= buf@.len(),
    ensures
        r == le_u64(buf@, off as int),
{
    (buf[off] as u64) | ((buf[off + 1] as u64) << 8u64) | ((buf[off + 2] as u64) << 16u64) | ((
    buf[off + 3] as u64) << 24u64) | ((buf[off + 4] as u64) << 32u64) | ((buf[off + 5] as u64)
        << 40u64) | ((buf[off + 6] as u64) << 48u64) | ((buf[off + 7] as u64) << 56u64)
}

/// Reads the little-endian `u32` at `off`.
pub fn read_u32(buf: &[u8], off: usize) -> (r: u32)
    requires
        off + 4 <= buf@.len(),
    ensures
        r == le_u32(buf@, off as int),
{
    (buf[off] as u32) | ((buf[off + 1] as u32) << 8u32) | ((buf[off + 2] as u32) << 16u32) | ((
    buf[off + 3] as u32) << 24u32)
}

/// Reads the little-endian `u16` at `off`.
pub fn read_u16(buf: &[u8], off: usize) -> (r: u16)
    requires
        off + 2 <= buf@.len(),
    ensures
        r == le_u16(buf@, off as int),
{
    ((buf[off] as u16) | ((buf[off + 1] as u16) << 8u16)) as u16
}

/// The eight little-endian bytes of `v`.
pub fn u64_bytes(v: u64) -> (r: [u8; 8])
    ensures
        r@ == u64_le(v),
{
    let r = [
        (v & 0xffu64) as u8,
        ((v >> 8u64) & 0xffu64) as u8,
        ((v >> 16u64) & 0xffu64) as u8,
        ((v >> 24u64) & 0xffu64) as u8,
        ((v >> 32u64) & 0xffu64) as u8,
        ((v >> 40u64) & 0xffu64) as u8,
        ((v >> 48u64) & 0xffu64) as u8,
        ((v >> 56u64) & 0xffu64) as u8,
    ];
    assert(r@ =~= u64_le(v));
    r
}

/// Writes `v` in little-endian order at `off`.
pub fn write_u64(buf: &mut [u8; 4096], off: usize, v: u64)
    requires
        off + 8 <= 4096,
    ensures
        final(buf)@ == old(buf)@.subrange(0, off as int) + u64_le(v) + old(buf)@.subrange(
            off + 8,
            4096,
        ),
        le_u64(final(buf)@, off as int) == v,
{
    buf[off] = (v & 0xffu64) as u8;
    buf[off + 1] = ((v >> 8u64) & 0xffu64) as u8;
    buf[off + 2] = ((v >> 16u64) & 0xffu64) as u8;
    buf[off + 3] = ((v >> 24u64) & 0xffu64) as u8;
    buf[off + 4] = ((v >> 32u64) & 0xffu64) as u8;
    buf[off + 5] = ((v >> 40u64) & 0xffu64) as u8;
    buf[off + 6] = ((v >> 48u64) & 0xffu64) as u8;
    buf[off + 7] = ((v >> 56u64) & 0xffu64) as u8;
    proof {
        lemma_u64_roundtrip(v);
        assert(buf@.subrange(off as int, off + 8) =~= u64_le(v));
        assert(buf@ =~= old(buf)@.subrange(0, off as int) + u64_le(v) + old(buf)@.subrange(
            off + 8,
            4096,
        ));
    }
}

/// Writes `v` in little-endian order at `off`.
pub fn write_u32(buf: &mut [u8; 4096], off: usize, v: u32)
    requires
        off + 4 <= 4096,
    ensures
        final(buf)@ == old(buf)@.subrange(0, off as int) + u32_le(v) + old(buf)@.subrange(
            off + 4,
            4096,
        ),
        le_u32(final(buf)@, off as int) == v,
{
    buf[off] = (v & 0xffu32) as u8;
    buf[off + 1] = ((v >> 8u32) & 0xffu32) as u8;
    buf[off + 2] = ((v >> 16u32) & 0xffu32) as u8;
    buf[off + 3] = ((v >> 24u32) & 0xffu32) as u8;
    proof {
        lemma_u32_roundtrip(v);
        assert(buf@.subrange(off as int, off + 4) =~= u32_le(v));
        assert(buf@ =~= old(buf)@.subrange(0, off as int) + u32_le(v) + old(buf)@.subrange(
            off + 4,
            4096,
        ));
    }
}

} // verus!
