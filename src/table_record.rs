//! The fixed-size metadata record of one stored entry.
use crate::error::ArchiveError;
use crate::le::{get_u32, lemma_u32_at_image, put_u32, u32_at};
use vstd::bytes::spec_u32_to_le_bytes;
use vstd::prelude::*;

verus! {

/// Bytes taken by one record.
pub const RECORD_SIZE: usize = 20;

/// Metadata of one entry: the checksum of its name, its rank in storage
/// order, its length, the offset of its bytes in the archive and the index
/// of its name in the name table.
#[derive(Debug, Clone, Copy, PartialEq, Eq, Structural)]
pub struct TableRecord {
    pub crc: u32,
    pub index: u32,
    pub size: u32,
    pub start: u32,
    pub name: u32,
}

/// The 20 bytes of a record: its five fields, each little-endian, in order.
pub open spec fn record_image(r: TableRecord) -> Seq<u8> {
    spec_u32_to_le_bytes(r.crc) + spec_u32_to_le_bytes(r.index) + spec_u32_to_le_bytes(r.size)
        + spec_u32_to_le_bytes(r.start) + spec_u32_to_le_bytes(r.name)
}

/// The record whose image starts at `pos`.
pub open spec fn record_at(data: Seq<u8>, pos: int) -> TableRecord {
    TableRecord {
        crc: u32_at(data, pos),
        index: u32_at(data, pos + 4),
        size: u32_at(data, pos + 8),
        start: u32_at(data, pos + 12),
        name: u32_at(data, pos + 16),
    }
}

/// What decoding a record at `pos` gives.
pub open spec fn parse_record(data: Seq<u8>, pos: int) -> Result<(TableRecord, int), ArchiveError> {
    if pos + 20 <= data.len() {
        Ok((record_at(data, pos), pos + 20))
    } else {
        Err(ArchiveError::Truncated)
    }
}

/// A record's image is 20 bytes long, and decoding it gives the record back.
pub proof fn lemma_record_round_trip(pre: Seq<u8>, r: TableRecord, post: Seq<u8>)
    ensures
        record_image(r).len() == 20,
        record_at(pre + record_image(r) + post, pre.len() as int) == r,
{
    let a = spec_u32_to_le_bytes(r.crc);
    let b = spec_u32_to_le_bytes(r.index);
    let c = spec_u32_to_le_bytes(r.size);
    let d = spec_u32_to_le_bytes(r.start);
    let e = spec_u32_to_le_bytes(r.name);
    let data = pre + record_image(r) + post;
    lemma_u32_at_image(pre, r.crc, b + c + d + e + post);
    lemma_u32_at_image(pre + a, r.index, c + d + e + post);
    lemma_u32_at_image(pre + a + b, r.size, d + e + post);
    lemma_u32_at_image(pre + a + b + c, r.start, e + post);
    lemma_u32_at_image(pre + a + b + c + d, r.name, post);
    assert(data =~= pre + a + (b + c + d + e + post));
    assert(data =~= pre + a + b + (c + d + e + post));
    assert(data =~= pre + a + b + c + (d + e + post));
    assert(data =~= pre + a + b + c + d + (e + post));
    assert(data =~= pre + a + b + c + d + e + post);
}

impl TableRecord {
    /// Decodes the record at `pos`, returning it with the position after it.
    pub fn create_from_cursor(data: &[u8], pos: usize) -> (r: Result<(TableRecord, usize), ArchiveError>)
        ensures
            match r {
                Ok((rec, next)) => parse_record(data@, pos as int) == Ok::<(TableRecord, int), ArchiveError>((rec, next as int)),
                Err(e) => parse_record(data@, pos as int) == Err::<(TableRecord, int), ArchiveError>(e),
            },
    {
        if pos > data.len() || data.len() - pos < RECORD_SIZE {
            return Err(ArchiveError::Truncated);
        }
        let crc = get_u32(data, pos);
        let index = get_u32(data, pos + 4);
        let size = get_u32(data, pos + 8);
        let start = get_u32(data, pos + 12);
        let name = get_u32(data, pos + 16);
        Ok((TableRecord { crc, index, size, start, name }, pos + RECORD_SIZE))
    }

    /// Appends the record's 20 bytes to `out`.
    pub fn serialize(&self, out: &mut Vec<u8>)
        ensures
            final(out)@ == old(out)@ + record_image(*self),
    {
        put_u32(out, self.crc);
        put_u32(out, self.index);
        put_u32(out, self.size);
        put_u32(out, self.start);
        put_u32(out, self.name);
        assert(final(out)@ =~= old(out)@ + record_image(*self));
    }

    /// The number of bytes a record takes in the archive.
    pub fn get_binary_size(&self) -> (r: usize)
        ensures
            r == 20,
    {
        RECORD_SIZE
    }
}

} // verus!
