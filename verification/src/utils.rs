//! Little-endian byte access over in-memory buffers.
//!
//! Every multi-byte field of the ZIP and binary-XML wire formats is
//! little-endian, so the whole crate reads and writes integers through the
//! functions of this module and states contracts over the spec functions
//! beside them.

use vstd::prelude::*;

verus! {

/// The 16-bit value stored little-endian as the bytes `lo`, `hi`.
pub open spec fn u16_of(lo: u8, hi: u8) -> u16 {
    (lo + hi * 0x100) as u16
}

/// The 32-bit value stored little-endian as the bytes `b0`..`b3`.
pub open spec fn u32_of(b0: u8, b1: u8, b2: u8, b3: u8) -> u32 {
    (b0 + b1 * 0x100 + b2 * 0x1_0000 + b3 * 0x100_0000) as u32
}

/// The 16-bit little-endian value at offset `o` of `d`.
pub open spec fn u16_at(d: Seq<u8>, o: int) -> u16
    recommends
        0 <= o,
        o + 2 <= d.len(),
{
    u16_of(d[o], d[o + 1])
}

/// The 32-bit little-endian value at offset `o` of `d`.
pub open spec fn u32_at(d: Seq<u8>, o: int) -> u32
    recommends
        0 <= o,
        o + 4 <= d.len(),
{
    u32_of(d[o], d[o + 1], d[o + 2], d[o + 3])
}

/// The two little-endian bytes of `v`.
pub open spec fn le16_bytes(v: u16) -> Seq<u8> {
    seq![(v % 0x100) as u8, (v / 0x100) as u8]
}

/// The four little-endian bytes of `v`.
pub open spec fn le32_bytes(v: u32) -> Seq<u8> {
    seq![
        (v % 0x100) as u8,
        (v / 0x100 % 0x100) as u8,
        (v / 0x1_0000 % 0x100) as u8,
        (v / 0x100_0000) as u8,
    ]
}

/// Writing a 16-bit value and reading it back yields the value again.
pub proof fn lemma_le16_roundtrip(v: u16)
    ensures
        u16_of(le16_bytes(v)[0], le16_bytes(v)[1]) == v,
{
}

/// Writing a 32-bit value and reading it back yields the value again.
pub proof fn lemma_le32_roundtrip(v: u32)
    ensures
        u32_of(le32_bytes(v)[0], le32_bytes(v)[1], le32_bytes(v)[2], le32_bytes(v)[3]) == v,
{
}

/// Reads an unsigned 16-bit little-endian value at `offset`.
pub fn get_leu16_value(data: &[u8], offset: usize) -> (r: u16)
    requires
        offset + 2 <= data@.len(),
    ensures
        r == u16_at(data@, offset as int),
{
    let b0 = data[offset];
    let b1 = data[offset + 1];
    let r = (b0 as u16) | ((b1 as u16) << 8);
    proof {
        assert(((b0 as u16) | ((b1 as u16) << 8)) == (b0 + b1 * 0x100) as u16) by (bit_vector);
    }
    r
}

/// Reads an unsigned 32-bit little-endian value at `offset`.
pub fn get_leu32_value(data: &[u8], offset: usize) -> (r: u32)
    requires
        offset + 4 <= data@.len(),
    ensures
        r == u32_at(data@, offset as int),
{
    let b0 = data[offset];
    let b1 = data[offset + 1];
    let b2 = data[offset + 2];
    let b3 = data[offset + 3];
    let r = (b0 as u32) | ((b1 as u32) << 8) | ((b2 as u32) << 16) | ((b3 as u32) << 24);
    proof {
        assert(((b0 as u32) | ((b1 as u32) << 8) | ((b2 as u32) << 16) | ((b3 as u32) << 24))
            == (b0 + b1 * 0x100 + b2 * 0x1_0000 + b3 * 0x100_0000) as u32) by (bit_vector);
    }
    r
}

/// Reads a signed 32-bit little-endian value at `offset`; the bit pattern is
/// the same one `u32_at` describes.
pub fn get_le32_value(data: &[u8], offset: usize) -> (r: i32)
    requires
        offset + 4 <= data@.len(),
    ensures
        r == u32_at(data@, offset as int) as i32,
{
    let u = get_leu32_value(data, offset);
    u as i32
}

/// Appends the two little-endian bytes of `value`.
pub fn push_leu16(data: &mut Vec<u8>, value: u16)
    ensures
        final(data)@ == old(data)@ + le16_bytes(value),
{
    data.push((value & 0xff) as u8);
    data.push(((value >> 8) & 0xff) as u8);
    proof {
        assert((value & 0xff) == value % 0x100) by (bit_vector);
        assert(((value >> 8) & 0xff) == value / 0x100) by (bit_vector);
        assert(data@ =~= old(data)@ + le16_bytes(value));
    }
}

/// Appends the four little-endian bytes of `value`.
pub fn push_leu32(data: &mut Vec<u8>, value: u32)
    ensures
        final(data)@ == old(data)@ + le32_bytes(value),
{
    data.push((value & 0xff) as u8);
    data.push(((value >> 8) & 0xff) as u8);
    data.push(((value >> 16) & 0xff) as u8);
    data.push(((value >> 24) & 0xff) as u8);
    proof {
        assert((value & 0xff) == value % 0x100) by (bit_vector);
        assert(((value >> 8) & 0xff) == value / 0x100 % 0x100) by (bit_vector);
        assert(((value >> 16) & 0xff) == value / 0x1_0000 % 0x100) by (bit_vector);
        assert(((value >> 24) & 0xff) == value / 0x100_0000) by (bit_vector);
        assert(data@ =~= old(data)@ + le32_bytes(value));
    }
}

/// Appends the four little-endian bytes of the signed `value`.
pub fn push_le32(data: &mut Vec<u8>, value: i32)
    ensures
        final(data)@ == old(data)@ + le32_bytes(value as u32),
{
    push_leu32(data, value as u32);
}

/// A 32-bit field written inside an embedded block reads back through the
/// surrounding buffer: if `x` stands at `o` in `d` and carries the four
/// little-endian bytes of `v` at `k`, then reading at `o + k` yields `v`.
pub proof fn lemma_read_le32(d: Seq<u8>, o: int, x: Seq<u8>, k: int, v: u32)
    requires
        0 <= o,
        0 <= k,
        k + 4 <= x.len(),
        o + x.len() <= d.len(),
        d.subrange(o, o + x.len()) == x,
        x.subrange(k, k + 4) == le32_bytes(v),
    ensures
        u32_at(d, o + k) == v,
{
    lemma_le32_roundtrip(v);
    assert(d[o + k] == x[k] && d[o + k + 1] == x[k + 1] && d[o + k + 2] == x[k + 2] && d[o + k
        + 3] == x[k + 3]);
    assert(x[k] == le32_bytes(v)[0] && x[k + 1] == le32_bytes(v)[1] && x[k + 2] == le32_bytes(
        v,
    )[2] && x[k + 3] == le32_bytes(v)[3]);
}

/// The 16-bit counterpart of `lemma_read_le32`.
pub proof fn lemma_read_le16(d: Seq<u8>, o: int, x: Seq<u8>, k: int, v: u16)
    requires
        0 <= o,
        0 <= k,
        k + 2 <= x.len(),
        o + x.len() <= d.len(),
        d.subrange(o, o + x.len()) == x,
        x.subrange(k, k + 2) == le16_bytes(v),
    ensures
        u16_at(d, o + k) == v,
{
    lemma_le16_roundtrip(v);
    assert(d[o + k] == x[k] && d[o + k + 1] == x[k + 1]);
    assert(x[k] == le16_bytes(v)[0] && x[k + 1] == le16_bytes(v)[1]);
}

} // verus!
