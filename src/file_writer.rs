//! Writing the parts of an archive's index onto a byte buffer.
use crate::export_file::ExportFile;
use crate::filename::{storable, write_name};
use crate::header::{header_image, Header};
use crate::mega_file::{names_image, names_storable, records_image};
use crate::table_record::TableRecord;
use vstd::prelude::*;

verus! {

/// Appends a header with the given counts; returns the bytes written.
pub fn write_header(out: &mut Vec<u8>, num_filenames: u32, num_files: u32) -> (r: usize)
    ensures
        final(out)@ == old(out)@ + header_image(Header { num_filenames, num_files }),
        r == 8,
{
    let header = Header::create(num_filenames, num_files);
    header.serialize(out);
    proof {
        crate::header::lemma_header_round_trip(header, Seq::empty());
    }
    8
}

/// Appends the encoding of each name in order; returns the bytes written.
pub fn write_file_names(out: &mut Vec<u8>, filenames: &Vec<String>) -> (r: usize)
    requires
        names_storable(filenames.deep_view()),
    ensures
        final(out)@ == old(out)@ + names_image(filenames.deep_view()),
        r == names_image(filenames.deep_view()).len(),
{
    let ghost ns = filenames.deep_view();
    let start = out.len();
    let mut i: usize = 0;
    while i < filenames.len()
        invariant
            ns == filenames.deep_view(),
            names_storable(ns),
            i <= ns.len(),
            start == old(out)@.len(),
            out@ == old(out)@ + names_image(ns.subrange(0, i as int)),
        decreases ns.len() - i,
    {
        assert(storable(ns[i as int]));
        write_name(out, &filenames[i]);
        assert(ns.subrange(0, i + 1).drop_last() =~= ns.subrange(0, i as int));
        i = i + 1;
    }
    assert(ns.subrange(0, i as int) =~= ns);
    out.len() - start
}

/// Appends the record of each entry in order; returns those records.
pub fn write_file_table_records(out: &mut Vec<u8>, files: &Vec<ExportFile>) -> (r: Vec<TableRecord>)
    ensures
        r@ == files@.map_values(|f: ExportFile| f.table_record),
        final(out)@ == old(out)@ + records_image(r@),
{
    let mut r: Vec<TableRecord> = Vec::new();
    let mut i: usize = 0;
    while i < files.len()
        invariant
            i <= files@.len(),
            r@ == files@.subrange(0, i as int).map_values(|f: ExportFile| f.table_record),
            out@ == old(out)@ + records_image(r@),
        decreases files@.len() - i,
    {
        let rec = *files[i].get_table_record();
        rec.serialize(out);
        let ghost before = r@;
        r.push(rec);
        assert(r@.drop_last() =~= before);
        assert(r@ =~= files@.subrange(0, i + 1).map_values(|f: ExportFile| f.table_record));
        i = i + 1;
    }
    assert(files@.subrange(0, i as int) =~= files@);
    r
}

} // verus!
