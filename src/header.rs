//! The two counts at the start of an archive.
use crate::error::ArchiveError;
use crate::le::{get_u32, lemma_u32_at_image, put_u32, u32_at};
use vstd::bytes::spec_u32_to_le_bytes;
use vstd::prelude::*;

verus! {

/// Bytes taken by the header.
pub const HEADER_SIZE: usize = 8;

/// The number of names in the name table and the number of records.
#[derive(Debug, Clone, Copy, PartialEq, Eq, Structural)]
pub struct Header {
    pub num_filenames: u32,
    pub num_files: u32,
}

/// The header's 8 bytes: the name count, then the record count, little-endian.
pub open spec fn header_image(h: Header) -> Seq<u8> {
    spec_u32_to_le_bytes(h.num_filenames) + spec_u32_to_le_bytes(h.num_files)
}

/// What decoding a header at the start of `data` gives.
pub open spec fn parse_header(data: Seq<u8>) -> Result<Header, ArchiveError> {
    if 8 <= data.len() {
        Ok(Header { num_filenames: u32_at(data, 0), num_files: u32_at(data, 4) })
    } else {
        Err(ArchiveError::Truncated)
    }
}

/// A header's image is 8 bytes long, and decoding it gives the header back.
pub proof fn lemma_header_round_trip(h: Header, post: Seq<u8>)
    ensures
        header_image(h).len() == 8,
        parse_header(header_image(h) + post) == Ok::<Header, ArchiveError>(h),
{
    let a = spec_u32_to_le_bytes(h.num_filenames);
    let b = spec_u32_to_le_bytes(h.num_files);
    lemma_u32_at_image(Seq::empty(), h.num_filenames, b + post);
    lemma_u32_at_image(a, h.num_files, post);
    assert(header_image(h) + post =~= Seq::empty() + a + (b + post));
    assert(header_image(h) + post =~= a + b + post);
}

impl Header {
    /// A header with the given counts.
    pub fn create(num_filenames: u32, num_files: u32) -> (r: Header)
        ensures
            r.num_filenames == num_filenames,
            r.num_files == num_files,
    {
        Header { num_filenames, num_files }
    }

    /// Decodes the header at the start of `data`.
    pub fn create_from_cursor(data: &[u8]) -> (r: Result<Header, ArchiveError>)
        ensures
            r == parse_header(data@),
    {
        if data.len() < HEADER_SIZE {
            return Err(ArchiveError::Truncated);
        }
        let num_filenames = get_u32(data, 0);
        let num_files = get_u32(data, 4);
        Ok(Header { num_filenames, num_files })
    }

    /// Appends the header's 8 bytes to `out`.
    pub fn serialize(&self, out: &mut Vec<u8>)
        ensures
            final(out)@ == old(out)@ + header_image(*self),
    {
        put_u32(out, self.num_filenames);
        put_u32(out, self.num_files);
        assert(final(out)@ =~= old(out)@ + header_image(*self));
    }
}

} // verus!
