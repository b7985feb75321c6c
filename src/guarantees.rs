//! What holds of every archive that `MegaFile::create_from_directory` lays
//! out: the orders of its tables, its offsets, and that reading it back gives
//! each entry's bytes.
use crate::crc::crc32;
use crate::error::ArchiveError;
use crate::export_file::{payload, ExportFile};
use crate::filename::{join_components, lemma_split_join, name_bytes, split_components};
use crate::header::Header;
use crate::mega_file::{index_image, index_len, lemma_parse_serialized, parse_archive, sizes_before, Layout};
use crate::order::{lemma_bytes_lt_asymmetric, lemma_bytes_lt_transitive, bytes_lt};
use crate::table_record::TableRecord;
use vstd::prelude::*;

verus! {

/// The byte sequences one after another.
pub open spec fn concat_bytes(ps: Seq<Seq<u8>>) -> Seq<u8>
    decreases ps.len(),
{
    if ps.len() == 0 {
        Seq::empty()
    } else {
        concat_bytes(ps.drop_last()) + ps.last()
    }
}

/// The archive file built from `files` with this layout, where input `x`
/// holds the bytes `contents[x]`: the index, then the data of each record in
/// storage order.
pub open spec fn built_archive(l: Layout, files: Seq<ExportFile>, contents: Seq<Seq<u8>>) -> Seq<u8> {
    index_image(l.mega_file@) + concat_bytes(Seq::new(files.len(), |k: int| contents[l.source(k)]))
}

/// Inside the concatenation, each part sits after the parts before it.
proof fn lemma_concat_at(ps: Seq<Seq<u8>>, k: int)
    requires
        0 <= k < ps.len(),
    ensures
        concat_bytes(ps.subrange(0, k)).len() + ps[k].len() <= concat_bytes(ps).len(),
        concat_bytes(ps).subrange(
            concat_bytes(ps.subrange(0, k)).len() as int,
            concat_bytes(ps.subrange(0, k)).len() + ps[k].len() as int,
        ) == ps[k],
    decreases ps.len(),
{
    let rest = ps.drop_last();
    if k == ps.len() - 1 {
        assert(ps.subrange(0, k) =~= rest);
        assert(concat_bytes(ps).subrange(concat_bytes(rest).len() as int, concat_bytes(ps).len() as int) =~= ps[k]);
    } else {
        lemma_concat_at(rest, k);
        assert(rest.subrange(0, k) =~= ps.subrange(0, k));
        let c = concat_bytes(ps.subrange(0, k)).len() as int;
        assert(concat_bytes(ps).subrange(c, c + ps[k].len()) =~= concat_bytes(rest).subrange(c, c + ps[k].len()));
    }
}

/// The records' sizes before `k` add up to the length of the data before `k`.
proof fn lemma_sizes_concat(recs: Seq<TableRecord>, ps: Seq<Seq<u8>>, k: int)
    requires
        recs.len() == ps.len(),
        0 <= k <= ps.len(),
        forall|q: int| 0 <= q < ps.len() ==> #[trigger] recs[q].size == ps[q].len(),
    ensures
        sizes_before(recs, k) == concat_bytes(ps.subrange(0, k)).len(),
    decreases k,
{
    if k > 0 {
        lemma_sizes_concat(recs, ps, k - 1);
        assert(ps.subrange(0, k).drop_last() =~= ps.subrange(0, k - 1));
    }
}

/// An archive built from `files` reads back as it was laid out: parsing it
/// gives its header, name table and record table, and each record's data is
/// exactly the bytes of the input it was made from, which the record's name
/// names; no record's data runs past the end of the archive.
pub proof fn lemma_build_round_trip(files: Seq<ExportFile>, l: Layout, contents: Seq<Seq<u8>>)
    requires
        l.built_from(files),
        contents.len() == files.len(),
        forall|x: int| 0 <= x < files.len() ==> (#[trigger] contents[x]).len() == files[x].table_record.size,
    ensures
        parse_archive(built_archive(l, files, contents))
            == Ok::<(Header, Seq<Seq<char>>, Seq<TableRecord>), ArchiveError>(l.mega_file@),
        forall|k: int| 0 <= k < files.len() ==> {
            &&& payload(built_archive(l, files, contents), #[trigger] l.mega_file.table_records@[k])
                == Ok::<Seq<u8>, ArchiveError>(contents[l.source(k)])
            &&& l.mega_file.entry_name(k) == files[l.source(k)].internal_file_name@
            &&& l.mega_file.table_records@[k].start + l.mega_file.table_records@[k].size
                <= built_archive(l, files, contents).len()
        },
{
    let m = l.mega_file;
    let n = files.len();
    let ps = Seq::new(n, |k: int| contents[l.source(k)]);
    let recs = m.table_records@;
    let a = built_archive(l, files, contents);
    lemma_parse_serialized(m@, concat_bytes(ps));
    assert forall|q: int| 0 <= q < n implies #[trigger] recs[q].size == ps[q].len() by {
        assert(recs[q] == crate::mega_file::laid_out_record(files, l.name_order@, l.storage_order@, q));
        assert((l.source(q) as int) < n);
    }
    assert forall|k: int| 0 <= k < n implies {
        &&& payload(a, #[trigger] recs[k]) == Ok::<Seq<u8>, ArchiveError>(contents[l.source(k)])
        &&& m.entry_name(k) == files[l.source(k)].internal_file_name@
        &&& recs[k].start + recs[k].size <= a.len()
    } by {
        lemma_sizes_concat(recs, ps, k);
        lemma_concat_at(ps, k);
        assert(recs[k].start == index_len(files) + sizes_before(recs, k));
        let c = concat_bytes(ps.subrange(0, k)).len() as int;
        let i = index_image(m@);
        assert(a.subrange(i.len() + c, i.len() + c + ps[k].len()) =~= concat_bytes(ps).subrange(c, c + ps[k].len()));
        assert(recs[k] == crate::mega_file::laid_out_record(files, l.name_order@, l.storage_order@, k));
        assert((l.storage_order@[k] as int) < n);
    }
}

/// Reading back an archive built from `files` finds as many names as
/// records, as many as there were inputs.
pub proof fn lemma_header_counts(files: Seq<ExportFile>, l: Layout, contents: Seq<Seq<u8>>)
    requires
        l.built_from(files),
        contents.len() == files.len(),
        forall|x: int| 0 <= x < files.len() ==> (#[trigger] contents[x]).len() == files[x].table_record.size,
    ensures
        parse_archive(built_archive(l, files, contents)) matches Ok((h, names, recs))
            && h.num_filenames == files.len() && h.num_files == files.len()
            && names.len() == files.len() && recs.len() == files.len(),
{
    lemma_build_round_trip(files, l, contents);
}

/// Where each input's name joins the components of its relative path
/// (at least one, none holding a backslash), each record's name splits back
/// into the components of the input it was made from: extraction recreates
/// the same relative paths.
pub proof fn lemma_entry_paths(files: Seq<ExportFile>, l: Layout, paths: Seq<Seq<Seq<char>>>)
    requires
        l.built_from(files),
        paths.len() == files.len(),
        forall|x: int| 0 <= x < files.len() ==> {
            &&& (#[trigger] paths[x]).len() >= 1
            &&& files[x].internal_file_name@ == join_components(paths[x])
            &&& forall|j: int, i: int| 0 <= j < paths[x].len() && 0 <= i < paths[x][j].len()
                ==> #[trigger] paths[x][j][i] != '\\'
        },
    ensures
        forall|k: int| 0 <= k < files.len() ==> split_components(#[trigger] l.mega_file.entry_name(k)) == paths[l.source(k)],
{
    let recs = l.mega_file.table_records@;
    assert forall|k: int| 0 <= k < files.len() implies split_components(#[trigger] l.mega_file.entry_name(k))
        == paths[l.source(k)] by {
        assert(recs[k] == crate::mega_file::laid_out_record(files, l.name_order@, l.storage_order@, k));
        let j = l.storage_order@[k] as int;
        assert(j < files.len());
        assert((l.name_order@[j] as int) < files.len());
        let x = l.source(k);
        assert(l.mega_file.filename_table@[j]@ == files[x].internal_file_name@);
        lemma_split_join(paths[x]);
    }
}

/// The name table is in lexicographic byte order: no name comes before the
/// one ahead of it.
pub proof fn lemma_name_table_sorted(files: Seq<ExportFile>, l: Layout)
    requires
        l.built_from(files),
    ensures
        forall|a: int, b: int| 0 <= a < b < files.len() ==>
            !bytes_lt(name_bytes(#[trigger] l.mega_file@.1[b]), name_bytes(#[trigger] l.mega_file@.1[a])),
{
    let ns = l.mega_file@.1;
    let no = l.name_order@;
    assert forall|a: int, b: int| 0 <= a < b < files.len() implies
        !bytes_lt(name_bytes(#[trigger] ns[b]), name_bytes(#[trigger] ns[a])) by {
        assert(ns[a] == l.mega_file.filename_table@[a]@);
        assert(ns[b] == l.mega_file.filename_table@[b]@);
        assert(crate::order::name_key_lt(files, no[a] as int, no[b] as int));
        lemma_bytes_lt_asymmetric(name_bytes(ns[a]), name_bytes(ns[b]));
        if name_bytes(ns[a]) == name_bytes(ns[b]) {
            lemma_bytes_lt_asymmetric(name_bytes(ns[b]), name_bytes(ns[a]));
        }
    }
}

/// The record table is in checksum order, and records with equal checksums
/// keep the order of their names in the name table.
pub proof fn lemma_records_ordered(files: Seq<ExportFile>, l: Layout)
    requires
        l.built_from(files),
    ensures
        forall|a: int, b: int| 0 <= a < b < files.len() ==> {
            let ra = #[trigger] l.mega_file.table_records@[a];
            let rb = #[trigger] l.mega_file.table_records@[b];
            ra.crc < rb.crc || (ra.crc == rb.crc && ra.name < rb.name)
        },
{
    let recs = l.mega_file.table_records@;
    let so = l.storage_order@;
    assert forall|a: int, b: int| 0 <= a < b < files.len() implies {
        let ra = #[trigger] recs[a];
        let rb = #[trigger] recs[b];
        ra.crc < rb.crc || (ra.crc == rb.crc && ra.name < rb.name)
    } by {
        assert(recs[a] == crate::mega_file::laid_out_record(files, l.name_order@, so, a));
        assert(recs[b] == crate::mega_file::laid_out_record(files, l.name_order@, so, b));
        assert(crate::order::crc_key_lt(crate::mega_file::crcs_in_name_order(files, l.name_order@), so[a] as int, so[b] as int));
        assert((so[a] as int) < files.len());
        assert((so[b] as int) < files.len());
    }
}

/// Every record points at a name of the table, and its checksum is that
/// name's CRC-32, where each input's checksum is that of its own name.
pub proof fn lemma_records_name_their_entries(files: Seq<ExportFile>, l: Layout)
    requires
        l.built_from(files),
        forall|x: int| 0 <= x < files.len() ==> (#[trigger] files[x]).table_record.crc
            == crc32(name_bytes(files[x].internal_file_name@)),
    ensures
        forall|k: int| 0 <= k < files.len() ==> {
            let r = #[trigger] l.mega_file.table_records@[k];
            &&& (r.name as int) < l.mega_file.header.num_filenames
            &&& crc32(name_bytes(l.mega_file@.1[r.name as int])) == r.crc
        },
{
    let recs = l.mega_file.table_records@;
    let so = l.storage_order@;
    assert forall|k: int| 0 <= k < files.len() implies {
        let r = #[trigger] recs[k];
        &&& (r.name as int) < l.mega_file.header.num_filenames
        &&& crc32(name_bytes(l.mega_file@.1[r.name as int])) == r.crc
    } by {
        assert(recs[k] == crate::mega_file::laid_out_record(files, l.name_order@, so, k));
        let j = so[k] as int;
        assert(j < files.len());
        assert(l.mega_file@.1[j] == l.mega_file.filename_table@[j]@);
        assert((l.name_order@[j] as int) < files.len());
    }
}

} // verus!
