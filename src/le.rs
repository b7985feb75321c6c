//! Little-endian integers, read from and written to byte buffers.
use byteorder::{ByteOrder, LittleEndian};
use vstd::bytes::{
    spec_u16_from_le_bytes, spec_u16_to_le_bytes, spec_u32_from_le_bytes, spec_u32_to_le_bytes,
};
use vstd::prelude::*;

verus! {

/// Relies on byteorder's `LittleEndian::read_u16`: the value of the first two
/// bytes, least significant first (it panics on a shorter buffer).
#[verifier::external_body]
pub(crate) fn read_u16_le(buf: &[u8]) -> (r: u16)
    requires
        buf@.len() >= 2,
    ensures
        r == spec_u16_from_le_bytes(buf@.subrange(0, 2)),
{
    LittleEndian::read_u16(buf)
}

/// Relies on byteorder's `LittleEndian::read_u32`: the value of the first four
/// bytes, least significant first (it panics on a shorter buffer).
#[verifier::external_body]
pub(crate) fn read_u32_le(buf: &[u8]) -> (r: u32)
    requires
        buf@.len() >= 4,
    ensures
        r == spec_u32_from_le_bytes(buf@.subrange(0, 4)),
{
    LittleEndian::read_u32(buf)
}

/// Relies on byteorder's `LittleEndian::write_u16`: two bytes, least
/// significant first.
#[verifier::external_body]
pub(crate) fn u16_le_bytes(n: u16) -> (r: Vec<u8>)
    ensures
        r@ == spec_u16_to_le_bytes(n),
{
    let mut buf = vec![0u8; 2];
    LittleEndian::write_u16(&mut buf, n);
    buf
}

/// Relies on byteorder's `LittleEndian::write_u32`: four bytes, least
/// significant first.
#[verifier::external_body]
pub(crate) fn u32_le_bytes(n: u32) -> (r: Vec<u8>)
    ensures
        r@ == spec_u32_to_le_bytes(n),
{
    let mut buf = vec![0u8; 4];
    LittleEndian::write_u32(&mut buf, n);
    buf
}

/// The 32-bit value stored little-endian at `pos`.
pub open spec fn u32_at(data: Seq<u8>, pos: int) -> u32 {
    spec_u32_from_le_bytes(data.subrange(pos, pos + 4))
}

/// The 16-bit value stored little-endian at `pos`.
pub open spec fn u16_at(data: Seq<u8>, pos: int) -> u16 {
    spec_u16_from_le_bytes(data.subrange(pos, pos + 2))
}

/// Reads the 32-bit value at `pos`.
pub(crate) fn get_u32(data: &[u8], pos: usize) -> (r: u32)
    requires
        pos + 4 <= data@.len(),
    ensures
        r == u32_at(data@, pos as int),
{
    let _n = data.len();
    let s = &data[pos..pos + 4];
    assert(s@.subrange(0, 4) =~= data@.subrange(pos as int, pos + 4));
    read_u32_le(s)
}

/// Reads the 16-bit value at `pos`.
pub(crate) fn get_u16(data: &[u8], pos: usize) -> (r: u16)
    requires
        pos + 2 <= data@.len(),
    ensures
        r == u16_at(data@, pos as int),
{
    let _n = data.len();
    let s = &data[pos..pos + 2];
    assert(s@.subrange(0, 2) =~= data@.subrange(pos as int, pos + 2));
    read_u16_le(s)
}

/// Appends `n` as four little-endian bytes.
pub(crate) fn put_u32(out: &mut Vec<u8>, n: u32)
    ensures
        final(out)@ == old(out)@ + spec_u32_to_le_bytes(n),
{
    let mut b = u32_le_bytes(n);
    out.append(&mut b);
}

/// Appends `n` as two little-endian bytes.
pub(crate) fn put_u16(out: &mut Vec<u8>, n: u16)
    ensures
        final(out)@ == old(out)@ + spec_u16_to_le_bytes(n),
{
    let mut b = u16_le_bytes(n);
    out.append(&mut b);
}

/// Reading back what was written at `pos` gives the value written.
pub proof fn lemma_u32_at_image(pre: Seq<u8>, n: u32, post: Seq<u8>)
    ensures
        spec_u32_to_le_bytes(n).len() == 4,
        u32_at(pre + spec_u32_to_le_bytes(n) + post, pre.len() as int) == n,
{
    vstd::bytes::lemma_auto_spec_u32_to_from_le_bytes();
    let d = pre + spec_u32_to_le_bytes(n) + post;
    assert(d.subrange(pre.len() as int, pre.len() + 4 as int) =~= spec_u32_to_le_bytes(n));
}

/// Reading back what was written at `pos` gives the value written.
pub proof fn lemma_u16_at_image(pre: Seq<u8>, n: u16, post: Seq<u8>)
    ensures
        spec_u16_to_le_bytes(n).len() == 2,
        u16_at(pre + spec_u16_to_le_bytes(n) + post, pre.len() as int) == n,
{
    vstd::bytes::lemma_auto_spec_u16_to_from_le_bytes();
    let d = pre + spec_u16_to_le_bytes(n) + post;
    assert(d.subrange(pre.len() as int, pre.len() + 2 as int) =~= spec_u16_to_le_bytes(n));
}

} // verus!
