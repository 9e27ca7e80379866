//! Little-endian encoding of the fixed-width integers stored in dictionary
//! files.
use vstd::prelude::*;

verus! {

/// The `u16` whose little-endian bytes are `lo, hi`.
pub open spec fn u16_from_le(lo: u8, hi: u8) -> u16 {
    (lo as int + hi as int * 256) as u16
}

/// The `i16` whose little-endian bytes are `lo, hi` (two's complement).
pub open spec fn i16_from_le(lo: u8, hi: u8) -> i16 {
    u16_from_le(lo, hi) as i16
}

/// The `u32` whose little-endian bytes are `b0, b1, b2, b3`.
pub open spec fn u32_from_le(b0: u8, b1: u8, b2: u8, b3: u8) -> u32 {
    (b0 as int + b1 as int * 0x100 + b2 as int * 0x1_0000 + b3 as int * 0x100_0000) as u32
}

/// The `u32` stored little-endian at `bytes[off..off + 4]`.
pub open spec fn u32_at(bytes: Seq<u8>, off: int) -> u32 {
    u32_from_le(bytes[off], bytes[off + 1], bytes[off + 2], bytes[off + 3])
}

/// The `i16` stored little-endian at `bytes[off..off + 2]`.
pub open spec fn i16_at(bytes: Seq<u8>, off: int) -> i16 {
    i16_from_le(bytes[off], bytes[off + 1])
}

/// The low byte of `v`'s little-endian encoding.
pub open spec fn i16_lo(v: i16) -> u8 {
    ((v as u16) % 256) as u8
}

/// The high byte of `v`'s little-endian encoding.
pub open spec fn i16_hi(v: i16) -> u8 {
    ((v as u16) / 256) as u8
}

/// The little-endian encoding of every value of `vals`, back to back.
pub open spec fn i16s_le(vals: Seq<i16>) -> Seq<u8> {
    Seq::new(
        2 * vals.len(),
        |i: int| if i % 2 == 0 { i16_lo(vals[i / 2]) } else { i16_hi(vals[i / 2]) },
    )
}

/// Decoding the two bytes of an `i16` gives the value back.
pub proof fn lemma_i16_le_roundtrip(v: i16)
    ensures
        i16_from_le(i16_lo(v), i16_hi(v)) == v,
{
    assert((((v as u16) % 256) as u8 as int + ((v as u16) / 256) as u8 as int * 256) as u16 as i16
        == v) by (bit_vector);
}

/// Reads the `i16` stored little-endian at `bytes[off..off + 2]`.
pub fn read_i16_le(bytes: &[u8], off: usize) -> (r: i16)
    requires
        off + 2 <= bytes@.len(),
    ensures
        r == i16_at(bytes@, off as int),
{
    let lo = bytes[off];
    let hi = bytes[off + 1];
    let u: u16 = (lo as u16) + (hi as u16) * 256;
    u as i16
}

/// Reads the `u32` stored little-endian at `bytes[off..off + 4]`.
pub fn read_u32_le(bytes: &[u8], off: usize) -> (r: u32)
    requires
        off + 4 <= bytes@.len(),
    ensures
        r == u32_at(bytes@, off as int),
{
    let b0 = bytes[off] as u32;
    let b1 = bytes[off + 1] as u32;
    let b2 = bytes[off + 2] as u32;
    let b3 = bytes[off + 3] as u32;
    b0 + b1 * 0x100 + b2 * 0x1_0000 + b3 * 0x100_0000
}

/// Appends the little-endian encoding of `v` to `out`.
pub fn push_i16_le(out: &mut Vec<u8>, v: i16)
    ensures
        final(out)@ == old(out)@.push(i16_lo(v)).push(i16_hi(v)),
{
    let u = v as u16;
    out.push((u % 256) as u8);
    out.push((u / 256) as u8);
}

/// The four little-endian bytes of `v`.
pub open spec fn u32_le_bytes(v: u32) -> Seq<u8> {
    seq![
        (v % 0x100) as u8,
        ((v / 0x100) % 0x100) as u8,
        ((v / 0x1_0000) % 0x100) as u8,
        (v / 0x100_0000) as u8,
    ]
}

/// Decoding the four bytes of a `u32` gives the value back.
pub proof fn lemma_u32_le_roundtrip(v: u32)
    ensures
        u32_at(u32_le_bytes(v), 0) == v,
{
    assert(((v % 0x100) as u8 as int + ((v / 0x100) % 0x100) as u8 as int * 0x100 + ((v / 0x1_0000)
        % 0x100) as u8 as int * 0x1_0000 + (v / 0x100_0000) as u8 as int * 0x100_0000) as u32 == v)
        by (bit_vector);
}

/// The little-endian encoding of every value of `vals`, back to back.
pub open spec fn u32s_le(vals: Seq<u32>) -> Seq<u8>
    decreases vals.len(),
{
    if vals.len() == 0 {
        Seq::empty()
    } else {
        u32s_le(vals.drop_last()) + u32_le_bytes(vals.last())
    }
}

/// The little-endian encoding of every value of `vals`, back to back.
pub open spec fn u16s_le(vals: Seq<u16>) -> Seq<u8> {
    Seq::new(
        2 * vals.len(),
        |i: int| if i % 2 == 0 { (vals[i / 2] % 256) as u8 } else { (vals[i / 2] / 256) as u8 },
    )
}

/// Appends the little-endian encoding of `v` to `out`.
pub fn push_u16_le(out: &mut Vec<u8>, v: u16)
    ensures
        final(out)@ == old(out)@.push((v % 256) as u8).push((v / 256) as u8),
{
    out.push((v % 256) as u8);
    out.push((v / 256) as u8);
}

/// Appends the little-endian encoding of `v` to `out`.
pub fn push_u32_le(out: &mut Vec<u8>, v: u32)
    ensures
        final(out)@.len() == old(out)@.len() + 4,
        final(out)@.subrange(0, old(out)@.len() as int) == old(out)@,
        u32_at(final(out)@, old(out)@.len() as int) == v,
        final(out)@ == old(out)@ + u32_le_bytes(v),
{
    let b0 = (v % 0x100) as u8;
    let b1 = ((v / 0x100) % 0x100) as u8;
    let b2 = ((v / 0x1_0000) % 0x100) as u8;
    let b3 = (v / 0x100_0000) as u8;
    let ghost n: int = out@.len() as int;
    out.push(b0);
    out.push(b1);
    out.push(b2);
    out.push(b3);
    assert(out@.subrange(0, n) == old(out)@);
    assert(out@[n] == b0 && out@[n + 1] == b1 && out@[n + 2] == b2 && out@[n + 3] == b3);
    assert(out@ =~= old(out)@ + u32_le_bytes(v));
}

} // verus!
