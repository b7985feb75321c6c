//! The archive: parsing it from bytes, reading entries out of it, and
//! laying one out from a set of files.
use crate::error::ArchiveError;
use crate::export_file::{clone_strings, payload, read_payload, ExportFile};
use crate::file_writer::{write_file_names, write_header};
use crate::filemeta::FileMeta;
use crate::filename::{lemma_name_round_trip, name_bytes, name_image, parse_name, split_components, storable, Filename};
use crate::header::{header_image, lemma_header_round_trip};
use crate::table_record::{lemma_record_round_trip, record_image};
use crate::order::{
    crc_key_lt, file_name_bytes, iota, is_permutation, lemma_sum_prefix_le, lemma_sum_through,
    name_key_lt, sort_by_crc, sort_by_name, sum_by,
};
use crate::header::{parse_header, Header, HEADER_SIZE};
use crate::table_record::{record_at, TableRecord, RECORD_SIZE};
use vstd::bytes::spec_u16_to_le_bytes;
use vstd::prelude::*;

verus! {

/// The text of each name of a name table.
pub open spec fn names_view(t: Seq<Filename>) -> Seq<Seq<char>> {
    t.map_values(|f: Filename| f@)
}

/// What decoding `n` names one after another from `pos` gives: the names and
/// the position after the last.
pub open spec fn parse_names(data: Seq<u8>, pos: int, n: nat) -> Result<(Seq<Seq<char>>, int), ArchiveError>
    decreases n,
{
    if n == 0 {
        Ok((Seq::empty(), pos))
    } else {
        match parse_names(data, pos, (n - 1) as nat) {
            Err(e) => Err(e),
            Ok((names, p)) => match parse_name(data, p) {
                Err(e) => Err(e),
                Ok((s, q)) => Ok((names.push(s), q)),
            },
        }
    }
}

/// The `n` records stored back to back from `pos`.
pub open spec fn records_at(data: Seq<u8>, pos: int, n: nat) -> Seq<TableRecord> {
    Seq::new(n, |i: int| record_at(data, pos + 20 * i))
}

/// Every record's name index selects one of `n` names.
pub open spec fn names_in_range(recs: Seq<TableRecord>, n: nat) -> bool {
    forall|i: int| 0 <= i < recs.len() ==> (#[trigger] recs[i].name as int) < n
}

/// What parsing an archive gives: its header, its name table and its record
/// table; or the first error met.
pub open spec fn parse_archive(data: Seq<u8>) -> Result<(Header, Seq<Seq<char>>, Seq<TableRecord>), ArchiveError> {
    match parse_header(data) {
        Err(e) => Err(e),
        Ok(h) => match parse_names(data, 8, h.num_filenames as nat) {
            Err(e) => Err(e),
            Ok((names, p)) => {
                let recs = records_at(data, p, h.num_files as nat);
                if p + 20 * h.num_files > data.len() {
                    Err(ArchiveError::Truncated)
                } else if !names_in_range(recs, names.len()) {
                    Err(ArchiveError::NameIndexOutOfRange)
                } else {
                    Ok((h, names, recs))
                }
            },
        },
    }
}

/// Once decoding the names fails, decoding more of them fails the same way.
proof fn lemma_parse_names_stuck(data: Seq<u8>, pos: int, k: nat, n: nat)
    requires
        k <= n,
        parse_names(data, pos, k) is Err,
    ensures
        parse_names(data, pos, n) == parse_names(data, pos, k),
    decreases n - k,
{
    if k < n {
        lemma_parse_names_stuck(data, pos, k, (n - 1) as nat);
    }
}

/// The name table's bytes: each name's encoding, in order.
pub open spec fn names_image(ns: Seq<Seq<char>>) -> Seq<u8>
    decreases ns.len(),
{
    if ns.len() == 0 {
        Seq::empty()
    } else {
        names_image(ns.drop_last()) + name_image(ns.last())
    }
}

/// The record table's bytes: each record's 20 bytes, in order.
pub open spec fn records_image(rs: Seq<TableRecord>) -> Seq<u8>
    decreases rs.len(),
{
    if rs.len() == 0 {
        Seq::empty()
    } else {
        records_image(rs.drop_last()) + record_image(rs.last())
    }
}

/// The bytes before the entries' data: header, name table, record table.
pub open spec fn index_image(v: (Header, Seq<Seq<char>>, Seq<TableRecord>)) -> Seq<u8> {
    header_image(v.0) + names_image(v.1) + records_image(v.2)
}

/// Every name of the table fits its length prefix.
pub open spec fn names_storable(ns: Seq<Seq<char>>) -> bool {
    forall|j: int| 0 <= j < ns.len() ==> storable(#[trigger] ns[j])
}

/// Decoding the encoded names gives them back.
proof fn lemma_names_round_trip(pre: Seq<u8>, ns: Seq<Seq<char>>, post: Seq<u8>)
    requires
        names_storable(ns),
    ensures
        parse_names(pre + names_image(ns) + post, pre.len() as int, ns.len())
            == Ok::<(Seq<Seq<char>>, int), ArchiveError>((ns, pre.len() + names_image(ns).len() as int)),
    decreases ns.len(),
{
    if ns.len() == 0 {
        assert(ns =~= Seq::<Seq<char>>::empty());
    } else {
        let rest = ns.drop_last();
        let s = ns.last();
        let data = pre + names_image(ns) + post;
        assert(names_storable(rest)) by {
            assert forall|j: int| 0 <= j < rest.len() implies storable(#[trigger] rest[j]) by {
                assert(rest[j] == ns[j]);
            }
        }
        assert(storable(ns[ns.len() - 1]));
        lemma_names_round_trip(pre, rest, name_image(s) + post);
        assert(data =~= pre + names_image(rest) + (name_image(s) + post));
        lemma_name_round_trip(pre + names_image(rest), s, post);
        assert(data =~= (pre + names_image(rest)) + name_image(s) + post);
        assert(rest.push(s) =~= ns);
    }
}

/// Each record's image sits 20 bytes after the previous one's.
proof fn lemma_records_round_trip(pre: Seq<u8>, rs: Seq<TableRecord>, post: Seq<u8>, k: int)
    requires
        0 <= k < rs.len(),
    ensures
        records_image(rs).len() == 20 * rs.len(),
        record_at(pre + records_image(rs) + post, pre.len() + 20 * k) == rs[k],
    decreases rs.len(),
{
    let rest = rs.drop_last();
    let r = rs.last();
    lemma_record_round_trip(pre + records_image(rest), r, post);
    if k < rs.len() - 1 {
        lemma_records_round_trip(pre, rest, record_image(r) + post, k);
        assert(pre + records_image(rs) + post =~= pre + records_image(rest) + (record_image(r) + post));
    } else {
        lemma_records_image_len(rest);
        assert(pre + records_image(rs) + post =~= (pre + records_image(rest)) + record_image(r) + post);
    }
}

/// The record table takes 20 bytes per record.
proof fn lemma_records_image_len(rs: Seq<TableRecord>)
    ensures
        records_image(rs).len() == 20 * rs.len(),
    decreases rs.len(),
{
    if rs.len() > 0 {
        lemma_records_image_len(rs.drop_last());
        lemma_record_round_trip(Seq::empty(), rs.last(), Seq::empty());
    }
}

/// Parsing the bytes that `serialize` writes, whatever follows them, gives
/// back the archive's header, name table and record table.
pub proof fn lemma_parse_serialized(v: (Header, Seq<Seq<char>>, Seq<TableRecord>), tail: Seq<u8>)
    requires
        v.0.num_filenames == v.1.len(),
        v.0.num_files == v.2.len(),
        names_in_range(v.2, v.1.len()),
        names_storable(v.1),
    ensures
        parse_archive(index_image(v) + tail) == Ok::<(Header, Seq<Seq<char>>, Seq<TableRecord>), ArchiveError>(v),
{
    let (h, ns, rs) = v;
    let hi = header_image(h);
    let ni = names_image(ns);
    let ri = records_image(rs);
    let data = index_image(v) + tail;
    assert(data =~= hi + (ni + ri + tail));
    lemma_header_round_trip(h, ni + ri + tail);
    assert(data =~= hi + ni + (ri + tail));
    lemma_names_round_trip(hi, ns, ri + tail);
    lemma_records_image_len(rs);
    let p: int = 8 + ni.len() as int;
    assert(data =~= (hi + ni) + ri + tail);
    assert forall|k: int| 0 <= k < rs.len() implies #[trigger] records_at(data, p, rs.len())[k] == rs[k] by {
        lemma_records_round_trip(hi + ni, rs, tail, k);
    }
    assert(records_at(data, p, h.num_files as nat) =~= rs);
}

/// The name table's length is the sum of its entries' lengths.
proof fn lemma_names_image_len(ns: Seq<Seq<char>>, order: Seq<usize>, files: Seq<ExportFile>, j: int)
    requires
        0 <= j <= ns.len(),
        ns.len() == order.len(),
        forall|q: int| 0 <= q < ns.len() ==> #[trigger] ns[q] == files[order[q] as int].internal_file_name@,
    ensures
        names_image(ns.subrange(0, j)).len() == sum_by(order.subrange(0, j), name_entry_len(files)),
    decreases j,
{
    if j > 0 {
        lemma_names_image_len(ns, order, files, j - 1);
        assert(ns.subrange(0, j).drop_last() =~= ns.subrange(0, j - 1));
        assert(order.subrange(0, j).drop_last() =~= order.subrange(0, j - 1));
        vstd::bytes::lemma_auto_spec_u16_to_from_le_bytes();
        assert(spec_u16_to_le_bytes(name_bytes(ns[j - 1]).len() as u16).len() == 2);
    }
}

/// A parsed archive: its header, its name table (in name order) and its
/// record table (in storage order).
pub struct MegaFile {
    pub header: Header,
    pub filename_table: Vec<Filename>,
    pub table_records: Vec<TableRecord>,
}

impl View for MegaFile {
    type V = (Header, Seq<Seq<char>>, Seq<TableRecord>);

    open spec fn view(&self) -> (Header, Seq<Seq<char>>, Seq<TableRecord>) {
        (self.header, names_view(self.filename_table@), self.table_records@)
    }
}

/// The spec-level result of a `Vec` result.
pub open spec fn bytes_result(r: Result<Vec<u8>, ArchiveError>) -> Result<Seq<u8>, ArchiveError> {
    match r {
        Ok(v) => Ok(v@),
        Err(e) => Err(e),
    }
}

impl MegaFile {
    /// The counts agree with the tables, and every record names a name.
    pub open spec fn wf(&self) -> bool {
        &&& self.header.num_filenames as int == self.filename_table@.len()
        &&& self.header.num_files as int == self.table_records@.len()
        &&& names_in_range(self.table_records@, self.filename_table@.len())
    }

    /// The name of record `i`.
    pub open spec fn entry_name(&self, i: int) -> Seq<char> {
        self.filename_table@[self.table_records@[i].name as int]@
    }

    /// Parses an archive: the header, then as many names as it announces,
    /// then as many records. Fails with `Truncated` where the bytes end
    /// early, `InvalidUtf8` on a malformed name and `NameIndexOutOfRange`
    /// where a record names no name.
    pub fn create(data: &[u8]) -> (r: Result<MegaFile, ArchiveError>)
        ensures
            match r {
                Ok(m) => parse_archive(data@) == Ok::<(Header, Seq<Seq<char>>, Seq<TableRecord>), ArchiveError>(m@) && m.wf(),
                Err(e) => parse_archive(data@) == Err::<(Header, Seq<Seq<char>>, Seq<TableRecord>), ArchiveError>(e),
            },
    {
        let header = match Header::create_from_cursor(data) {
            Ok(h) => h,
            Err(e) => return Err(e),
        };
        let mut pos: usize = HEADER_SIZE;
        let mut filename_table: Vec<Filename> = Vec::new();
        let mut i: u32 = 0;
        assert(names_view(filename_table@) =~= Seq::<Seq<char>>::empty());
        while i < header.num_filenames
            invariant
                header == parse_header(data@)->Ok_0,
                parse_header(data@) is Ok,
                i <= header.num_filenames,
                pos <= data@.len(),
                filename_table@.len() == i,
                parse_names(data@, 8, i as nat)
                    == Ok::<(Seq<Seq<char>>, int), ArchiveError>((names_view(filename_table@), pos as int)),
            decreases header.num_filenames - i,
        {
            match Filename::create_from_cursor(data, pos) {
                Err(e) => {
                    proof {
                        lemma_parse_names_stuck(data@, 8, (i + 1) as nat, header.num_filenames as nat);
                    }
                    return Err(e);
                },
                Ok((f, next)) => {
                    let ghost before = filename_table@;
                    filename_table.push(f);
                    assert(names_view(filename_table@) =~= names_view(before).push(f@));
                    pos = next;
                    i = i + 1;
                },
            }
        }
        let names_end = pos;
        let mut table_records: Vec<TableRecord> = Vec::new();
        let mut j: u32 = 0;
        while j < header.num_files
            invariant
                header == parse_header(data@)->Ok_0,
                parse_header(data@) is Ok,
                i == header.num_filenames,
                filename_table@.len() == i,
                parse_names(data@, 8, i as nat)
                    == Ok::<(Seq<Seq<char>>, int), ArchiveError>((names_view(filename_table@), names_end as int)),
                j <= header.num_files,
                names_end <= pos <= data@.len(),
                pos == names_end + 20 * j,
                table_records@ == records_at(data@, names_end as int, j as nat),
            decreases header.num_files - j,
        {
            match TableRecord::create_from_cursor(data, pos) {
                Err(e) => {
                    assert(names_end + 20 * header.num_files > data@.len());
                    return Err(e);
                },
                Ok((rec, next)) => {
                    table_records.push(rec);
                    assert(table_records@ =~= records_at(data@, names_end as int, (j + 1) as nat));
                    pos = next;
                    j = j + 1;
                },
            }
        }
        let mut k: usize = 0;
        while k < table_records.len()
            invariant
                header == parse_header(data@)->Ok_0,
                parse_header(data@) is Ok,
                parse_names(data@, 8, header.num_filenames as nat)
                    == Ok::<(Seq<Seq<char>>, int), ArchiveError>((names_view(filename_table@), names_end as int)),
                table_records@ == records_at(data@, names_end as int, header.num_files as nat),
                names_end + 20 * header.num_files <= data@.len(),
                table_records@.len() == header.num_files,
                k <= table_records@.len(),
                filename_table@.len() == header.num_filenames,
                forall|m: int| 0 <= m < k ==> (#[trigger] table_records@[m].name as int) < header.num_filenames,
            decreases table_records@.len() - k,
        {
            if table_records[k].name >= header.num_filenames {
                assert(!names_in_range(table_records@, filename_table@.len()));
                return Err(ArchiveError::NameIndexOutOfRange);
            }
            k = k + 1;
        }
        Ok(MegaFile { header, filename_table, table_records })
    }

    /// The bytes before the entries' data: header, then each name, then
    /// each record.
    pub fn serialize(&self) -> (r: Vec<u8>)
        requires
            names_storable(self@.1),
        ensures
            r@ == index_image(self@),
    {
        let mut out: Vec<u8> = Vec::new();
        write_header(&mut out, self.header.num_filenames, self.header.num_files);
        write_file_names(&mut out, &self.get_file_name_iterator());
        let ghost mid = out@;
        let mut k: usize = 0;
        while k < self.table_records.len()
            invariant
                k <= self.table_records@.len(),
                out@ == mid + records_image(self.table_records@.subrange(0, k as int)),
            decreases self.table_records@.len() - k,
        {
            self.table_records[k].serialize(&mut out);
            assert(self.table_records@.subrange(0, k + 1).drop_last() =~= self.table_records@.subrange(0, k as int));
            k = k + 1;
        }
        assert(self.table_records@.subrange(0, k as int) =~= self.table_records@);
        assert(out@ =~= index_image(self@));
        out
    }

    /// The names of the name table, in stored order.
    pub fn get_file_name_iterator(&self) -> (r: Vec<String>)
        ensures
            r.deep_view() == names_view(self.filename_table@),
    {
        let mut r: Vec<String> = Vec::new();
        let mut i: usize = 0;
        while i < self.filename_table.len()
            invariant
                i <= self.filename_table@.len(),
                r.deep_view() == names_view(self.filename_table@).subrange(0, i as int),
            decreases self.filename_table@.len() - i,
        {
            let ghost before = r.deep_view();
            r.push(self.filename_table[i].filename.clone());
            assert(r.deep_view() =~= names_view(self.filename_table@).subrange(0, i + 1)) by {
                assert(r.deep_view() =~= before.push(self.filename_table@[i as int]@));
            }
            i = i + 1;
        }
        assert(names_view(self.filename_table@).subrange(0, i as int) =~= names_view(self.filename_table@));
        r
    }

    /// Each record, in stored order, with the name it points to.
    pub fn get_metadata_iterator(&self) -> (r: Vec<FileMeta>)
        requires
            self.wf(),
        ensures
            r@.len() == self.table_records@.len(),
            forall|i: int| 0 <= i < r@.len() ==> {
                &&& (#[trigger] r@[i]).table_record == self.table_records@[i]
                &&& r@[i].internal_file_name@ == self.entry_name(i)
            },
    {
        let mut r: Vec<FileMeta> = Vec::new();
        let mut i: usize = 0;
        while i < self.table_records.len()
            invariant
                self.wf(),
                i <= self.table_records@.len(),
                r@.len() == i,
                forall|m: int| 0 <= m < i ==> {
                    &&& (#[trigger] r@[m]).table_record == self.table_records@[m]
                    &&& r@[m].internal_file_name@ == self.entry_name(m)
                },
            decreases self.table_records@.len() - i,
        {
            assert((self.table_records@[i as int].name as int) < self.filename_table@.len());
            let meta = FileMeta::create_from_table_record(&self.table_records[i], &self.filename_table);
            r.push(meta);
            i = i + 1;
        }
        r
    }

    /// Each record, in stored order, as an entry to extract: its name, and
    /// as its path the components that the name stands for.
    pub fn get_export_file_iterator(&self) -> (r: Vec<ExportFile>)
        requires
            self.wf(),
        ensures
            r@.len() == self.table_records@.len(),
            forall|i: int| 0 <= i < r@.len() ==> {
                &&& (#[trigger] r@[i]).table_record == self.table_records@[i]
                &&& r@[i].internal_file_name@ == self.entry_name(i)
                &&& r@[i].file_path.deep_view() == split_components(self.entry_name(i))
            },
    {
        let mut r: Vec<ExportFile> = Vec::new();
        let mut i: usize = 0;
        while i < self.table_records.len()
            invariant
                self.wf(),
                i <= self.table_records@.len(),
                r@.len() == i,
                forall|m: int| 0 <= m < i ==> {
                    &&& (#[trigger] r@[m]).table_record == self.table_records@[m]
                    &&& r@[m].internal_file_name@ == self.entry_name(m)
                    &&& r@[m].file_path.deep_view() == split_components(self.entry_name(m))
                },
            decreases self.table_records@.len() - i,
        {
            let rec = self.table_records[i];
            assert((rec.name as int) < self.filename_table@.len());
            let name = &self.filename_table[rec.name as usize];
            let e = ExportFile {
                file_path: name.components(),
                internal_file_name: name.filename.clone(),
                table_record: rec,
            };
            r.push(e);
            i = i + 1;
        }
        r
    }

    /// The bytes of the first entry, in stored order, whose name is exactly
    /// `internal_path`; `NotFound` when no entry has that name.
    pub fn extract_one(&self, data: &[u8], internal_path: &String) -> (r: Result<Vec<u8>, ArchiveError>)
        requires
            self.wf(),
        ensures
            (forall|k: int| 0 <= k < self.table_records@.len() ==> #[trigger] self.entry_name(k) != internal_path@)
                ==> r == Err::<Vec<u8>, ArchiveError>(ArchiveError::NotFound),
            forall|k: int|
                0 <= k < self.table_records@.len() && #[trigger] self.entry_name(k) == internal_path@
                    && (forall|j: int| 0 <= j < k ==> self.entry_name(j) != internal_path@)
                    ==> bytes_result(r) == payload(data@, self.table_records@[k]),
    {
        let mut k: usize = 0;
        while k < self.table_records.len()
            invariant
                self.wf(),
                k <= self.table_records@.len(),
                forall|j: int| 0 <= j < k ==> #[trigger] self.entry_name(j) != internal_path@,
            decreases self.table_records@.len() - k,
        {
            let rec = self.table_records[k];
            assert((rec.name as int) < self.filename_table@.len());
            if self.filename_table[rec.name as usize].filename == *internal_path {
                assert(self.entry_name(k as int) == internal_path@);
                assert forall|m: int|
                    0 <= m < self.table_records@.len() && #[trigger] self.entry_name(m) == internal_path@
                        && (forall|j: int| 0 <= j < m ==> self.entry_name(j) != internal_path@) implies m == k by {
                    if m > k {
                        assert(self.entry_name(k as int) != internal_path@);
                    }
                }
                return read_payload(&rec, data);
            }
            k = k + 1;
        }
        Err(ArchiveError::NotFound)
    }

    /// What extraction into a base directory does first: use it where it is
    /// a directory (`Ok(false)`), create it where nothing exists there
    /// (`Ok(true)`), and refuse anything else with `InvalidInput`.
    pub fn prepare_extraction_directory(exists: bool, is_dir: bool) -> (r: Result<bool, ArchiveError>)
        ensures
            is_dir ==> r == Ok::<bool, ArchiveError>(false),
            !is_dir && !exists ==> r == Ok::<bool, ArchiveError>(true),
            !is_dir && exists ==> r == Err::<bool, ArchiveError>(ArchiveError::InvalidInput),
    {
        if is_dir {
            Ok(false)
        } else if !exists {
            Ok(true)
        } else {
            Err(ArchiveError::InvalidInput)
        }
    }
}

/// Bytes that input `x`'s name takes in the name table.
pub open spec fn name_entry_len(files: Seq<ExportFile>) -> spec_fn(int) -> int {
    |x: int| 2 + file_name_bytes(files, x).len() as int
}

/// The byte length of input `x`.
pub open spec fn file_size(files: Seq<ExportFile>) -> spec_fn(int) -> int {
    |x: int| files[x].table_record.size as int
}

/// Bytes before the first entry's data: header, name table and record table.
pub open spec fn index_len(files: Seq<ExportFile>) -> int {
    8 + sum_by(iota(files.len()), name_entry_len(files)) + 20 * files.len()
}

/// The length of the archive built from `files`.
pub open spec fn archive_len(files: Seq<ExportFile>) -> int {
    index_len(files) + sum_by(iota(files.len()), file_size(files))
}

/// Every input's name fits its length prefix.
pub open spec fn all_storable(files: Seq<ExportFile>) -> bool {
    forall|x: int| 0 <= x < files.len() ==> storable(#[trigger] files[x].internal_file_name@)
}

/// The sum of the sizes of the first `k` records.
pub open spec fn sizes_before(recs: Seq<TableRecord>, k: int) -> int
    decreases k,
{
    if k <= 0 {
        0
    } else {
        sizes_before(recs, k - 1) + recs[k - 1].size
    }
}

/// The checksum of each name-order position.
pub open spec fn crcs_in_name_order(files: Seq<ExportFile>, name_order: Seq<usize>) -> Seq<u32> {
    Seq::new(name_order.len(), |j: int| files[name_order[j] as int].table_record.crc)
}

/// The size of the input at each name-order position.
pub open spec fn size_in_name_order(files: Seq<ExportFile>, name_order: Seq<usize>) -> spec_fn(int) -> int {
    |q: int| files[name_order[q] as int].table_record.size as int
}

/// The record at storage position `k`, as the layout fixes it: its data
/// starts after the index and the data of the records before it.
pub open spec fn laid_out_record(
    files: Seq<ExportFile>,
    name_order: Seq<usize>,
    storage_order: Seq<usize>,
    k: int,
) -> TableRecord {
    let x = name_order[storage_order[k] as int] as int;
    TableRecord {
        crc: files[x].table_record.crc,
        index: k as u32,
        size: files[x].table_record.size,
        start: (index_len(files) + sum_by(storage_order.subrange(0, k), size_in_name_order(files, name_order))) as u32,
        name: storage_order[k] as u32,
    }
}

/// Summing the records' sizes is summing the sizes they were made from.
proof fn lemma_sizes_before_sum(recs: Seq<TableRecord>, so: Seq<usize>, g: spec_fn(int) -> int, k: int)
    requires
        0 <= k <= recs.len(),
        recs.len() == so.len(),
        forall|q: int| 0 <= q < recs.len() ==> #[trigger] recs[q].size as int == g(so[q] as int),
    ensures
        sizes_before(recs, k) == sum_by(so.subrange(0, k), g),
    decreases k,
{
    if k > 0 {
        lemma_sizes_before_sum(recs, so, g, k - 1);
        assert(so.subrange(0, k).drop_last() =~= so.subrange(0, k - 1));
    }
}

/// An archive laid out from a set of files: the archive's tables, the
/// entries in storage order with their records filled in, and the two
/// orders it was built in.
pub struct Layout {
    pub mega_file: MegaFile,
    pub files: Vec<ExportFile>,
    /// For each position of the name table, the input it comes from.
    pub name_order: Vec<usize>,
    /// For each position of the record table, its name-table position.
    pub storage_order: Vec<usize>,
}

impl Layout {
    /// The input a record-table position comes from.
    pub open spec fn source(&self, k: int) -> int {
        self.name_order@[self.storage_order@[k] as int] as int
    }

    /// This layout is the one that `files` gives: names sorted by their
    /// bytes (equal names kept in input order), records sorted by checksum
    /// (equal checksums kept in name order), each record numbered by its
    /// position, pointing at its name, and starting where the data of the
    /// records before it ends.
    pub open spec fn built_from(&self, files: Seq<ExportFile>) -> bool {
        let n = files.len();
        let no = self.name_order@;
        let so = self.storage_order@;
        let m = self.mega_file;
        let recs = m.table_records@;
        &&& is_permutation(no, n)
        &&& is_permutation(so, n)
        &&& forall|a: int, b: int|
            0 <= a < b < n ==> name_key_lt(files, #[trigger] no[a] as int, #[trigger] no[b] as int)
        &&& forall|a: int, b: int|
            0 <= a < b < n ==> crc_key_lt(crcs_in_name_order(files, no), #[trigger] so[a] as int, #[trigger] so[b] as int)
        &&& m.wf()
        &&& names_storable(m@.1)
        &&& index_image(m@).len() == index_len(files)
        &&& m.header.num_filenames == n
        &&& m.header.num_files == n
        &&& m.filename_table@.len() == n
        &&& forall|j: int| 0 <= j < n ==> (#[trigger] m.filename_table@[j])@ == files[no[j] as int].internal_file_name@
        &&& recs.len() == n
        &&& forall|k: int| 0 <= k < n ==> #[trigger] recs[k] == laid_out_record(files, no, so, k)
        &&& forall|k: int| 0 <= k < n ==> index_len(files) + sizes_before(recs, k) <= u32::MAX
        &&& forall|k: int| 0 <= k < n ==> #[trigger] recs[k].start == index_len(files) + sizes_before(recs, k)
        &&& self.files@.len() == n
        &&& forall|k: int| 0 <= k < n ==> {
                &&& (#[trigger] self.files@[k]).table_record == recs[k]
                &&& self.files@[k].internal_file_name@ == files[self.source(k)].internal_file_name@
                &&& self.files@[k].file_path.deep_view() == files[self.source(k)].file_path.deep_view()
            }
    }
}

impl MegaFile {
    /// Lays out an archive of `files`: names sorted by their bytes, records
    /// and data sorted by checksum, offsets accumulated from the end of the
    /// record table. Fails with `TooManyFiles` beyond 2^32 - 1 entries, then
    /// with `NameTooLong` where a name exceeds 65535 bytes, then with
    /// `ArchiveTooLarge` where the archive would exceed 2^32 - 1 bytes.
    #[verifier::rlimit(60)]
    pub fn create_from_directory(files: &Vec<ExportFile>) -> (r: Result<Layout, ArchiveError>)
        ensures
            files@.len() > u32::MAX ==> r == Err::<Layout, ArchiveError>(ArchiveError::TooManyFiles),
            files@.len() <= u32::MAX && !all_storable(files@)
                ==> r == Err::<Layout, ArchiveError>(ArchiveError::NameTooLong),
            files@.len() <= u32::MAX && all_storable(files@) && archive_len(files@) > u32::MAX
                ==> r == Err::<Layout, ArchiveError>(ArchiveError::ArchiveTooLarge),
            files@.len() <= u32::MAX && all_storable(files@) && archive_len(files@) <= u32::MAX ==> r is Ok,
            r matches Ok(l) ==> l.built_from(files@),
    {
        let n = files.len();
        if n > 0xFFFF_FFFF {
            return Err(ArchiveError::TooManyFiles);
        }
        let mut i: usize = 0;
        while i < n
            invariant
                n == files@.len(),
                n <= u32::MAX,
                i <= n,
                forall|x: int| 0 <= x < i ==> storable(#[trigger] files@[x].internal_file_name@),
            decreases n - i,
        {
            if files[i].internal_file_name.as_str().as_bytes().len() > 65535 {
                return Err(ArchiveError::NameTooLong);
            }
            i = i + 1;
        }
        let ghost nel = name_entry_len(files@);
        let ghost fsz = file_size(files@);
        let fixed: u64 = 8 + 20 * (n as u64);
        if fixed > 0xFFFF_FFFF {
            proof {
                assert(iota(n as nat).subrange(0, n as int) =~= iota(n as nat));
                lemma_sum_prefix_le(iota(n as nat), n as int, nel);
                lemma_sum_prefix_le(iota(n as nat), n as int, fsz);
            }
            return Err(ArchiveError::ArchiveTooLarge);
        }
        let mut names_total: u64 = 0;
        let mut sizes_total: u64 = 0;
        i = 0;
        while i < n
            invariant
                n == files@.len(),
                n <= u32::MAX,
                fixed == 8 + 20 * n,
                i <= n,
                names_total == sum_by(iota(i as nat), nel),
                sizes_total == sum_by(iota(i as nat), fsz),
                fixed + names_total + sizes_total <= u32::MAX,
                all_storable(files@),
                nel == name_entry_len(files@),
                fsz == file_size(files@),
            decreases n - i,
        {
            let len = files[i].internal_file_name.as_str().as_bytes().len() as u64;
            let size = files[i].table_record.size as u64;
            proof {
                assert(storable(files@[i as int].internal_file_name@));
                assert(iota((i + 1) as nat).drop_last() =~= iota(i as nat));
            }
            if fixed + names_total + sizes_total + 2 + len + size > 0xFFFF_FFFF {
                proof {
                    assert(iota(n as nat).subrange(0, i + 1) =~= iota((i + 1) as nat));
                    lemma_sum_prefix_le(iota(n as nat), i + 1, nel);
                    lemma_sum_prefix_le(iota(n as nat), i + 1, fsz);
                }
                return Err(ArchiveError::ArchiveTooLarge);
            }
            names_total = names_total + 2 + len;
            sizes_total = sizes_total + size;
            i = i + 1;
        }
        let name_order = sort_by_name(files);
        let mut filename_table: Vec<Filename> = Vec::new();
        let mut crcs: Vec<u32> = Vec::new();
        let mut j: usize = 0;
        while j < n
            invariant
                n == files@.len(),
                is_permutation(name_order@, n as nat),
                j <= n,
                filename_table@.len() == j,
                crcs@.len() == j,
                forall|q: int| 0 <= q < j ==> (#[trigger] filename_table@[q])@ == files@[name_order@[q] as int].internal_file_name@,
                forall|q: int| 0 <= q < j ==> #[trigger] crcs@[q] == files@[name_order@[q] as int].table_record.crc,
            decreases n - j,
        {
            let x = name_order[j];
            filename_table.push(Filename { filename: files[x].internal_file_name.clone() });
            crcs.push(files[x].table_record.crc);
            j = j + 1;
        }
        assert(crcs@ =~= crcs_in_name_order(files@, name_order@));
        let storage_order = sort_by_crc(&crcs);
        proof {
            let ns = names_view(filename_table@);
            lemma_names_image_len(ns, name_order@, files@, n as int);
            assert(ns.subrange(0, n as int) =~= ns);
            assert(name_order@.subrange(0, n as int) =~= name_order@);
            assert(sum_by(name_order@, nel) == sum_by(iota(n as nat), nel));
        }
        let base: u64 = fixed + names_total;
        let ghost by_name = size_in_name_order(files@, name_order@);
        proof {
            lemma_sum_through(name_order@, fsz, by_name);
            assert(iota(n as nat).subrange(0, n as int) =~= iota(n as nat));
        }
        let table_records = Self::setup_table_records(files, &name_order, &storage_order, &crcs, base);
        let out = Self::storage_files(files, &name_order, &storage_order, &table_records);
        let mega_file = MegaFile {
            header: Header { num_filenames: n as u32, num_files: n as u32 },
            filename_table,
            table_records,
        };
        proof {
            lemma_header_round_trip(mega_file.header, Seq::empty());
            lemma_records_image_len(mega_file.table_records@);
            assert forall|j: int| 0 <= j < n implies storable(#[trigger] mega_file@.1[j]) by {
                assert(storable(files@[name_order@[j] as int].internal_file_name@));
            }
        }
        Ok(Layout { mega_file, files: out, name_order, storage_order })
    }

    /// The records in storage order: numbered by position, pointing at
    /// their names, starting where the previous record's data ends.
    fn setup_table_records(
        files: &Vec<ExportFile>,
        name_order: &Vec<usize>,
        storage_order: &Vec<usize>,
        crcs: &Vec<u32>,
        base: u64,
    ) -> (table_records: Vec<TableRecord>)
        requires
            files@.len() <= u32::MAX,
            is_permutation(name_order@, files@.len()),
            is_permutation(storage_order@, files@.len()),
            crcs@ == crcs_in_name_order(files@, name_order@),
            base == index_len(files@),
            base + sum_by(storage_order@, size_in_name_order(files@, name_order@)) <= u32::MAX,
        ensures
            table_records@.len() == files@.len(),
            forall|q: int| 0 <= q < files@.len() ==> #[trigger] table_records@[q]
                == laid_out_record(files@, name_order@, storage_order@, q),
            forall|q: int| 0 <= q < files@.len() ==> index_len(files@) + sizes_before(table_records@, q) <= u32::MAX,
            forall|q: int| 0 <= q < files@.len() ==> #[trigger] table_records@[q].start == index_len(files@) + sizes_before(table_records@, q),
    {
        let ghost g = size_in_name_order(files@, name_order@);
        let n = files.len();
        let mut table_records: Vec<TableRecord> = Vec::new();
        let mut acc: u64 = 0;
        let mut k: usize = 0;
        while k < n
            invariant
                n == files@.len(),
                n <= u32::MAX,
                is_permutation(name_order@, n as nat),
                is_permutation(storage_order@, n as nat),
                crcs@ == crcs_in_name_order(files@, name_order@),
                base == index_len(files@),
                base + sum_by(storage_order@, g) <= u32::MAX,
                g == size_in_name_order(files@, name_order@),
                k <= n,
                table_records@.len() == k,
                acc == sum_by(storage_order@.subrange(0, k as int), g),
                forall|q: int| 0 <= q < k ==> #[trigger] table_records@[q]
                    == laid_out_record(files@, name_order@, storage_order@, q),
            decreases n - k,
        {
            let p = storage_order[k];
            let x = name_order[p];
            let size = files[x].table_record.size;
            proof {
                assert(storage_order@.subrange(0, k + 1).drop_last() =~= storage_order@.subrange(0, k as int));
                lemma_sum_prefix_le(storage_order@, k + 1, g);
            }
            let rec = TableRecord { crc: crcs[p], index: k as u32, size, start: (base + acc) as u32, name: p as u32 };
            table_records.push(rec);
            acc = acc + size as u64;
            k = k + 1;
        }
        proof {
            assert forall|q: int| 0 <= q < n implies #[trigger] sizes_before(table_records@, q)
                == sum_by(storage_order@.subrange(0, q), g) by {
                lemma_sizes_before_sum(table_records@, storage_order@, g, q);
            }
            assert forall|q: int| 0 <= q < n implies index_len(files@) + #[trigger] sizes_before(table_records@, q)
                <= u32::MAX by {
                lemma_sum_prefix_le(storage_order@, q, g);
            }
            assert forall|q: int| 0 <= q < n implies #[trigger] table_records@[q].start
                == index_len(files@) + sizes_before(table_records@, q) by {
                assert(table_records@[q] == laid_out_record(files@, name_order@, storage_order@, q));
                assert(sizes_before(table_records@, q) == sum_by(storage_order@.subrange(0, q), g));
                lemma_sum_prefix_le(storage_order@, q, g);
                assert(index_len(files@) + sizes_before(table_records@, q) <= u32::MAX);
            }
        }
        table_records
    }

    /// The inputs in storage order, each with its record.
    fn storage_files(
        files: &Vec<ExportFile>,
        name_order: &Vec<usize>,
        storage_order: &Vec<usize>,
        table_records: &Vec<TableRecord>,
    ) -> (out: Vec<ExportFile>)
        requires
            is_permutation(name_order@, files@.len()),
            is_permutation(storage_order@, files@.len()),
            table_records@.len() == files@.len(),
        ensures
            out@.len() == files@.len(),
            forall|q: int| 0 <= q < files@.len() ==> {
                &&& (#[trigger] out@[q]).table_record == table_records@[q]
                &&& out@[q].internal_file_name@ == files@[name_order@[storage_order@[q] as int] as int].internal_file_name@
                &&& out@[q].file_path.deep_view() == files@[name_order@[storage_order@[q] as int] as int].file_path.deep_view()
            },
    {
        let n = files.len();
        let mut out: Vec<ExportFile> = Vec::new();
        let mut k: usize = 0;
        while k < n
            invariant
                n == files@.len(),
                is_permutation(name_order@, n as nat),
                is_permutation(storage_order@, n as nat),
                table_records@.len() == n,
                k <= n,
                out@.len() == k,
                forall|q: int| 0 <= q < k ==> {
                    &&& (#[trigger] out@[q]).table_record == table_records@[q]
                    &&& out@[q].internal_file_name@ == files@[name_order@[storage_order@[q] as int] as int].internal_file_name@
                    &&& out@[q].file_path.deep_view() == files@[name_order@[storage_order@[q] as int] as int].file_path.deep_view()
                },
            decreases n - k,
        {
            let x = name_order[storage_order[k]];
            out.push(ExportFile {
                file_path: clone_strings(&files[x].file_path),
                internal_file_name: files[x].internal_file_name.clone(),
                table_record: table_records[k],
            });
            k = k + 1;
        }
        out
    }
}

} // verus!
