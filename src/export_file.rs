//! An entry on its way into or out of an archive: where it lives on disk,
//! its internal name and its record.
use crate::crc::{compute_from_bytes, crc32};
use crate::error::ArchiveError;
use crate::filename::{join_components, name_bytes, Filename};
use crate::table_record::TableRecord;
use vstd::prelude::*;
use vstd::slice::slice_to_vec;

verus! {

/// An entry with the path (as components) of its file on disk, its internal
/// name and its record.
pub struct ExportFile {
    pub file_path: Vec<String>,
    pub internal_file_name: String,
    pub table_record: TableRecord,
}

/// The bytes of the entry that `rec` describes, where the archive holds them.
pub open spec fn payload(data: Seq<u8>, rec: TableRecord) -> Result<Seq<u8>, ArchiveError> {
    if rec.start + rec.size <= data.len() {
        Ok(data.subrange(rec.start as int, rec.start + rec.size))
    } else {
        Err(ArchiveError::Truncated)
    }
}

/// The bytes of the entry that `rec` describes, read from the archive
/// `data`; `Truncated` when the archive ends before the last of them.
pub fn read_payload(rec: &TableRecord, data: &[u8]) -> (r: Result<Vec<u8>, ArchiveError>)
    ensures
        match r {
            Ok(v) => payload(data@, *rec) == Ok::<Seq<u8>, ArchiveError>(v@),
            Err(e) => payload(data@, *rec) == Err::<Seq<u8>, ArchiveError>(e),
        },
{
    let start = rec.start as usize;
    let size = rec.size as usize;
    let n = data.len();
    if start > n || n - start < size {
        return Err(ArchiveError::Truncated);
    }
    Ok(slice_to_vec(&data[start..start + size]))
}

/// A copy of a list of strings.
pub fn clone_strings(v: &Vec<String>) -> (r: Vec<String>)
    ensures
        r.deep_view() == v.deep_view(),
{
    let mut r: Vec<String> = Vec::new();
    let mut i: usize = 0;
    while i < v.len()
        invariant
            i <= v@.len(),
            r.deep_view() == v.deep_view().subrange(0, i as int),
        decreases v@.len() - i,
    {
        let ghost before = r.deep_view();
        r.push(v[i].clone());
        assert(r.deep_view() =~= v.deep_view().subrange(0, i + 1)) by {
            assert(r.deep_view() =~= before.push(v[i as int]@));
        }
        i = i + 1;
    }
    assert(v.deep_view().subrange(0, v@.len() as int) =~= v.deep_view());
    r
}

impl ExportFile {
    /// The entry for the file at `path` (its components) holding `size`
    /// bytes: its internal name joins the components with backslashes, and
    /// its checksum is that name's CRC-32. Index, start and name index are
    /// left zero until the archive's layout is computed.
    pub fn from_path(path: &Vec<String>, size: u32) -> (r: ExportFile)
        ensures
            r.file_path.deep_view() == path.deep_view(),
            r.internal_file_name@ == join_components(path.deep_view()),
            r.table_record == (TableRecord {
                crc: crc32(name_bytes(join_components(path.deep_view()))),
                index: 0,
                size,
                start: 0,
                name: 0,
            }),
    {
        let internal_file_name = Filename::from_path(path).filename;
        let crc = compute_from_bytes(internal_file_name.as_str().as_bytes());
        ExportFile {
            file_path: clone_strings(path),
            internal_file_name,
            table_record: TableRecord { crc, index: 0, size, start: 0, name: 0 },
        }
    }

    /// The entry's record.
    pub fn get_table_record(&self) -> (r: &TableRecord)
        ensures
            *r == self.table_record,
    {
        &self.table_record
    }

    /// The entry's bytes, read from the archive `data` at the record's
    /// start; `Truncated` when the archive ends before the last of them.
    pub fn read_from_mega_file(&self, data: &[u8]) -> (r: Result<Vec<u8>, ArchiveError>)
        ensures
            match r {
                Ok(v) => payload(data@, self.table_record) == Ok::<Seq<u8>, ArchiveError>(v@),
                Err(e) => payload(data@, self.table_record) == Err::<Seq<u8>, ArchiveError>(e),
            },
    {
        read_payload(&self.table_record, data)
    }
}

} // verus!
