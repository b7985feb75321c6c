use petroglyph::crc::compute_from_bytes;
use petroglyph::file_writer::{write_file_names, write_file_table_records, write_header};
use petroglyph::mega_file::Layout;
use petroglyph::{ArchiveError, ExportFile, FileMeta, Filename, Header, MegaFile, TableRecord};

fn parts(p: &[&str]) -> Vec<String> {
    p.iter().map(|s| s.to_string()).collect()
}

/// Builds an archive from (path components, contents) pairs, as a program
/// would after reading the files.
fn build_owned(entries: &[(Vec<String>, Vec<u8>)]) -> (Layout, Vec<u8>) {
    let files: Vec<ExportFile> = entries
        .iter()
        .map(|(p, c)| ExportFile::from_path(p, c.len() as u32))
        .collect();
    let layout = MegaFile::create_from_directory(&files).unwrap();
    let mut bytes = layout.mega_file.serialize();
    for f in &layout.files {
        let (_, content) = entries.iter().find(|(p, _)| *p == f.file_path).unwrap();
        bytes.extend_from_slice(content);
    }
    (layout, bytes)
}

fn build(entries: &[(&[&str], &[u8])]) -> (Layout, Vec<u8>) {
    let owned: Vec<(Vec<String>, Vec<u8>)> = entries.iter().map(|(p, c)| (parts(p), c.to_vec())).collect();
    build_owned(&owned)
}

#[test]
fn crc32_of_check_string() {
    assert_eq!(compute_from_bytes(b"123456789"), 0xCBF4_3926);
    assert_eq!(compute_from_bytes(b""), 0);
    assert_eq!(compute_from_bytes(b"a"), 0xE8B7_BE43);
}

#[test]
fn header_bytes_and_decode() {
    let h = Header::create(2, 3);
    let mut out = Vec::new();
    h.serialize(&mut out);
    assert_eq!(out, vec![2, 0, 0, 0, 3, 0, 0, 0]);
    let back = Header::create_from_cursor(&out).unwrap();
    assert_eq!(back, h);
    assert_eq!(Header::create_from_cursor(&out[..7]), Err(ArchiveError::Truncated));
}

#[test]
fn table_record_bytes_and_decode() {
    let r = TableRecord { crc: 0x0403_0201, index: 1, size: 2, start: 0x100, name: 5 };
    let mut out = vec![9];
    r.serialize(&mut out);
    assert_eq!(
        out,
        vec![9, 1, 2, 3, 4, 1, 0, 0, 0, 2, 0, 0, 0, 0, 1, 0, 0, 5, 0, 0, 0]
    );
    assert_eq!(r.get_binary_size(), 20);
    assert_eq!(TableRecord::create_from_cursor(&out, 1), Ok((r, 21)));
    assert_eq!(TableRecord::create_from_cursor(&out, 2), Err(ArchiveError::Truncated));
}

#[test]
fn filename_joins_components_with_backslash() {
    let f = Filename::from_path(&parts(&["sub", "dir", "b.txt"]));
    assert_eq!(f.filename, "sub\\dir\\b.txt");
    assert_eq!(f.byte_len(), 13);
    assert_eq!(f.components(), parts(&["sub", "dir", "b.txt"]));
    let single = Filename::from_path(&parts(&["a.txt"]));
    assert_eq!(single.filename, "a.txt");
    assert_eq!(single.components(), parts(&["a.txt"]));
}

#[test]
fn filename_encoding_and_decoding() {
    let f = Filename::from_path(&parts(&["é"]));
    let mut out = Vec::new();
    f.serialize(&mut out);
    assert_eq!(out, vec![2, 0, 0xC3, 0xA9]);
    let (back, next) = Filename::create_from_cursor(&out, 0).unwrap();
    assert_eq!(back.filename, "é");
    assert_eq!(next, 4);
    assert!(matches!(Filename::create_from_cursor(&out[..3], 0), Err(ArchiveError::Truncated)));
    assert!(matches!(Filename::create_from_cursor(&[1], 0), Err(ArchiveError::Truncated)));
    assert!(matches!(Filename::create_from_cursor(&[1, 0, 0xFF], 0), Err(ArchiveError::InvalidUtf8)));
}

#[test]
fn export_file_from_path_fills_checksum_and_size() {
    let e = ExportFile::from_path(&parts(&["sub", "b.txt"]), 3);
    assert_eq!(e.internal_file_name, "sub\\b.txt");
    assert_eq!(e.file_path, parts(&["sub", "b.txt"]));
    let r = e.get_table_record();
    assert_eq!(r.crc, compute_from_bytes(b"sub\\b.txt"));
    assert_eq!((r.index, r.size, r.start, r.name), (0, 3, 0, 0));
}

#[test]
fn two_file_directory_scenario() {
    let (layout, bytes) = build(&[(&["sub", "b.txt"], b"bye"), (&["a.txt"], b"hi")]);
    assert_eq!(&bytes[..8], &[2, 0, 0, 0, 2, 0, 0, 0]);
    let m = MegaFile::create(&bytes).unwrap();
    assert_eq!(m.header, Header::create(2, 2));
    assert_eq!(m.get_file_name_iterator(), parts(&["a.txt", "sub\\b.txt"]));
    assert_eq!(m.extract_one(&bytes, &"sub\\b.txt".to_string()), Ok(b"bye".to_vec()));
    assert_eq!(m.extract_one(&bytes, &"a.txt".to_string()), Ok(b"hi".to_vec()));
    assert_eq!(layout.mega_file.table_records, m.table_records);
    // 8 header bytes, 7 + 11 name bytes, 40 record bytes.
    let first = m.table_records.iter().map(|r| r.start).min().unwrap();
    assert_eq!(first, 66);
    assert_eq!(bytes.len(), 71);
}

#[test]
fn lookup_is_exact_and_reports_not_found() {
    let (_, bytes) = build(&[(&["sub", "b.txt"], b"bye")]);
    let m = MegaFile::create(&bytes).unwrap();
    assert_eq!(m.extract_one(&bytes, &"sub/b.txt".to_string()), Err(ArchiveError::NotFound));
    assert_eq!(m.extract_one(&bytes, &"SUB\\b.txt".to_string()), Err(ArchiveError::NotFound));
    assert_eq!(m.extract_one(&bytes, &"b.txt".to_string()), Err(ArchiveError::NotFound));
}

#[test]
fn name_count_beyond_the_names_present_fails() {
    let mut bytes = vec![3, 0, 0, 0, 1, 0, 0, 0];
    bytes.extend_from_slice(&[1, 0, b'a']);
    assert!(matches!(MegaFile::create(&bytes), Err(ArchiveError::Truncated)));
}

#[test]
fn record_count_beyond_the_records_present_fails() {
    let mut bytes = vec![1, 0, 0, 0, 2, 0, 0, 0, 1, 0, b'a'];
    bytes.extend_from_slice(&[0; 20]);
    assert!(matches!(MegaFile::create(&bytes), Err(ArchiveError::Truncated)));
}

#[test]
fn record_naming_a_missing_name_fails() {
    let mut bytes = vec![1, 0, 0, 0, 1, 0, 0, 0, 1, 0, b'a'];
    let r = TableRecord { crc: 0, index: 0, size: 0, start: 31, name: 1 };
    r.serialize(&mut bytes);
    assert!(matches!(MegaFile::create(&bytes), Err(ArchiveError::NameIndexOutOfRange)));
}

#[test]
fn empty_archive_round_trips() {
    let (layout, bytes) = build(&[]);
    assert_eq!(bytes, vec![0, 0, 0, 0, 0, 0, 0, 0]);
    assert!(layout.files.is_empty());
    let m = MegaFile::create(&bytes).unwrap();
    assert!(m.get_file_name_iterator().is_empty());
    assert!(m.get_metadata_iterator().is_empty());
}

#[test]
fn extraction_into_a_regular_file_is_refused() {
    assert_eq!(MegaFile::prepare_extraction_directory(true, false), Err(ArchiveError::InvalidInput));
    assert_eq!(MegaFile::prepare_extraction_directory(true, true), Ok(false));
    assert_eq!(MegaFile::prepare_extraction_directory(false, false), Ok(true));
}

#[test]
fn records_sorted_by_checksum_with_consecutive_offsets() {
    let entries: Vec<(Vec<String>, Vec<u8>)> = (0..12)
        .map(|i: usize| {
            let dir = ["x", "y", "z", "w"][i % 4].to_string();
            (vec!["d".to_string(), dir, format!("f{}.bin", i)], vec![i as u8; i + 1])
        })
        .collect();
    let (_, bytes) = build_owned(&entries);
    let m = MegaFile::create(&bytes).unwrap();
    let names = m.get_file_name_iterator();
    for w in names.windows(2) {
        assert!(w[0].as_bytes() <= w[1].as_bytes());
    }
    let metas = m.get_metadata_iterator();
    let mut next = metas[0].table_record.start;
    for (i, meta) in metas.iter().enumerate() {
        let r = meta.table_record;
        assert_eq!(r.index as usize, i);
        assert_eq!(r.start, next);
        next += r.size;
        assert_eq!(compute_from_bytes(meta.internal_file_name.filename.as_bytes()), r.crc);
        assert_eq!(names[r.name as usize], meta.internal_file_name.filename);
        if i > 0 {
            let p = metas[i - 1].table_record;
            assert!(p.crc < r.crc || (p.crc == r.crc && p.name < r.name));
        }
    }
    assert_eq!(next as usize, bytes.len());
    for (p, c) in &entries {
        assert_eq!(m.extract_one(&bytes, &p.join("\\")).unwrap(), *c);
    }
}

#[test]
fn equal_checksums_keep_name_order() {
    let mut a = ExportFile::from_path(&parts(&["b"]), 1);
    let mut b = ExportFile::from_path(&parts(&["a"]), 1);
    a.table_record.crc = 7;
    b.table_record.crc = 7;
    let layout = MegaFile::create_from_directory(&vec![a, b]).unwrap();
    let recs = &layout.mega_file.table_records;
    assert_eq!((recs[0].name, recs[1].name), (0, 1));
    assert_eq!(layout.files[0].internal_file_name, "a");
    assert_eq!(layout.name_order, vec![1, 0]);
}

#[test]
fn duplicate_names_are_kept() {
    let files = vec![
        ExportFile::from_path(&parts(&["a"]), 1),
        ExportFile::from_path(&parts(&["a"]), 2),
    ];
    let layout = MegaFile::create_from_directory(&files).unwrap();
    assert_eq!(layout.mega_file.filename_table.len(), 2);
    assert_eq!(layout.name_order, vec![0, 1]);
    assert_eq!(layout.storage_order, vec![0, 1]);
}

#[test]
fn build_errors() {
    let long = "x".repeat(65536);
    let files = vec![ExportFile::from_path(&vec![long], 1)];
    assert!(matches!(MegaFile::create_from_directory(&files), Err(ArchiveError::NameTooLong)));
    let fits = "x".repeat(65535);
    let files = vec![ExportFile::from_path(&vec![fits], 1)];
    assert!(MegaFile::create_from_directory(&files).is_ok());
    let files = vec![
        ExportFile::from_path(&parts(&["a"]), u32::MAX - 100),
        ExportFile::from_path(&parts(&["b"]), 100),
    ];
    assert!(matches!(MegaFile::create_from_directory(&files), Err(ArchiveError::ArchiveTooLarge)));
}

#[test]
fn truncated_payload_is_reported() {
    let (layout, bytes) = build(&[(&["a"], b"hello")]);
    let e = &layout.files[0];
    assert_eq!(e.read_from_mega_file(&bytes), Ok(b"hello".to_vec()));
    assert_eq!(e.read_from_mega_file(&bytes[..bytes.len() - 1]), Err(ArchiveError::Truncated));
}

#[test]
fn metadata_and_export_files_resolve_names() {
    let (_, bytes) = build(&[(&["q", "r"], b"1"), (&["p"], b"22")]);
    let m = MegaFile::create(&bytes).unwrap();
    let metas = m.get_metadata_iterator();
    let exports = m.get_export_file_iterator();
    assert_eq!(metas.len(), 2);
    for (meta, e) in metas.iter().zip(exports.iter()) {
        assert_eq!(meta.internal_file_name.filename, e.internal_file_name);
        assert_eq!(meta.table_record, e.table_record);
        assert_eq!(e.file_path.join("\\"), e.internal_file_name);
    }
    let direct = FileMeta::create_from_table_record(&m.table_records[0], &m.filename_table);
    assert_eq!(direct.table_record, m.table_records[0]);
}

#[test]
fn components_keep_empty_pieces() {
    let f = Filename { filename: "a\\".to_string() };
    assert_eq!(f.components(), parts(&["a", ""]));
    let g = Filename { filename: String::new() };
    assert_eq!(g.components(), parts(&[""]));
    let h = Filename { filename: "\\\\x".to_string() };
    assert_eq!(h.components(), parts(&["", "", "x"]));
    assert_eq!(Filename::from_path(&Vec::new()).filename, "");
}

#[test]
fn decoding_at_an_offset_past_the_end_is_truncated() {
    let data = [0u8; 4];
    assert!(matches!(Filename::create_from_cursor(&data, 9), Err(ArchiveError::Truncated)));
    assert_eq!(TableRecord::create_from_cursor(&data, 9), Err(ArchiveError::Truncated));
}

#[test]
fn writers_lay_out_header_names_and_records() {
    let mut out = Vec::new();
    assert_eq!(write_header(&mut out, 1, 1), 8);
    assert_eq!(write_file_names(&mut out, &parts(&["ab", "c"])), 7);
    assert_eq!(out, vec![1, 0, 0, 0, 1, 0, 0, 0, 2, 0, b'a', b'b', 1, 0, b'c']);
    let mut e = ExportFile::from_path(&parts(&["c"]), 4);
    e.table_record.start = 35;
    let recs = write_file_table_records(&mut out, &vec![e]);
    assert_eq!(recs.len(), 1);
    assert_eq!(recs[0].size, 4);
    assert_eq!(out.len(), 35);
    assert_eq!(&out[15..19], &recs[0].crc.to_le_bytes());
    assert_eq!(&out[31..35], &[0, 0, 0, 0]);
    assert_eq!(&out[27..31], &[35, 0, 0, 0]);
}
