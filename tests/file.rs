use pod5::footer::{ContentType, TableInfo};
use pod5::reader::{check_signature, read_footer, valid_signature, Pod5Error, Reader, SignatureSite};
use pod5::svb16::{decode, encode};
use pod5::writer::{TableContent, TableWriteGuard, WriteError, Writer};

const SIG: [u8; 8] = [0x8b, b'P', b'O', b'D', b'\r', b'\n', 0x1a, b'\n'];
const MARKER: [u8; 16] = [1, 2, 3, 4, 5, 6, 7, 8, 9, 10, 11, 12, 13, 14, 15, 16];

fn new_writer() -> Writer {
    Writer::with_ids(Vec::new(), MARKER, "67e55044-10b1-426f-9247-bb680e5fe0c8".to_string())
}

fn write_table(w: &mut Writer, content: TableContent, batches: &[&[u8]]) -> TableInfo {
    let mut g = TableWriteGuard::new(w, content).unwrap();
    for b in batches {
        g.write_batch(w, b"schema", b).unwrap();
    }
    g.finish(w).unwrap()
}

#[test]
fn signature_checks() {
    assert!(valid_signature(&SIG));
    assert!(!valid_signature(&SIG[..7]));
    let mut bad = SIG;
    bad[0] = 0;
    assert!(!valid_signature(&bad));
    assert!(check_signature(&[&SIG[..], &[1, 2, 3]].concat()));
    assert!(!check_signature(&SIG[..4]));
    assert_eq!(SignatureSite::Start.name(), "start");
    assert_eq!(SignatureSite::End.name(), "end");
}

#[test]
fn minimal_file_with_empty_run_info_table() {
    let mut w = new_writer();
    let region = b"ARROW1\0\0empty table";
    let t = write_table(&mut w, TableContent::RunInfo, &[region]);
    let file = w.finish().unwrap();

    assert_eq!(&file[..8], &SIG);
    assert_eq!(&file[8..24], &MARKER);
    assert_eq!(t.offset(), 24);
    assert_eq!(t.length() % 8, 0);
    assert_eq!(t.length(), 24);
    let end = (t.offset() + t.length()) as usize;
    assert_eq!(&file[24..24 + region.len()], region);
    assert!(file[24 + region.len()..end].iter().all(|b| *b == 0));
    assert_eq!(&file[end..end + 16], &MARKER);
    assert_eq!(&file[end + 16..end + 24], b"FOOTER\0\0");
    let n = file.len();
    assert_eq!(&file[n - 8..], &SIG);
    assert_eq!(&file[n - 24..n - 8], &MARKER);
    let flen = i64::from_le_bytes(file[n - 32..n - 24].try_into().unwrap()) as usize;
    assert_eq!(n, end + 16 + 8 + flen + 8 + 16 + 8);

    let reader = Reader::from_reader(file).unwrap();
    let footer = reader.footer.footer().unwrap();
    assert_eq!(footer.contents.len(), 1);
    assert_eq!(footer.contents[0], TableInfo::new(24, 24, ContentType::RunInfoTable));
    assert_eq!(footer.contents[0].length() % 8, 0);
    assert_eq!(reader.run_info_table().unwrap().as_ref(), &t);
    assert_eq!(footer.software, "pod5-rs");
    assert_eq!(footer.pod5_version, "0.0.40");
}

#[test]
fn empty_region_is_allowed() {
    let mut w = new_writer();
    let g = TableWriteGuard::new(&mut w, TableContent::RunInfo).unwrap();
    let t = g.finish(&mut w).unwrap();
    assert_eq!(t, TableInfo::new(24, 0, ContentType::RunInfoTable));
    let reader = Reader::from_reader(w.finish().unwrap()).unwrap();
    assert_eq!(reader.table_bytes(&t).unwrap(), Vec::<u8>::new());
}

#[test]
fn corrupted_trailing_signature() {
    let mut w = new_writer();
    write_table(&mut w, TableContent::Signal, &[b"some bytes"]);
    let mut file = w.finish().unwrap();
    let n = file.len();
    file[n - 1] ^= 0xff;
    assert_eq!(read_footer(&file).err(), Some(Pod5Error::SignatureFailure(SignatureSite::End)));
    assert_eq!(
        Reader::from_reader(file).err(),
        Some(Pod5Error::SignatureFailure(SignatureSite::End))
    );
}

#[test]
fn corrupted_leading_signature() {
    let mut w = new_writer();
    write_table(&mut w, TableContent::Signal, &[b"some bytes"]);
    let mut file = w.finish().unwrap();
    file[0] = 0;
    assert_eq!(
        Reader::from_reader(file).err(),
        Some(Pod5Error::SignatureFailure(SignatureSite::Start))
    );
}

#[test]
fn footer_length_out_of_range() {
    let mut file = Vec::new();
    file.extend_from_slice(&SIG);
    file.extend_from_slice(&MARKER);
    file.extend_from_slice(&1000i64.to_le_bytes());
    file.extend_from_slice(&MARKER);
    file.extend_from_slice(&SIG);
    assert_eq!(read_footer(&file).err(), Some(Pod5Error::FooterLengthOutOfRange));
    assert_eq!(read_footer(&SIG).err(), Some(Pod5Error::FooterLengthOutOfRange));
}

#[test]
fn duplicate_mandatory_table() {
    let mut w = new_writer();
    let signal = write_table(&mut w, TableContent::Signal, &[b"signal batch"]);
    let len_before = w.buf.len();
    let again = TableWriteGuard::new(&mut w, TableContent::Signal);
    assert_eq!(again.err(), Some(WriteError::ContentTypeAlreadyWritten(ContentType::SignalTable)));
    assert_eq!(w.buf.len(), len_before);
    assert_eq!(
        w.open_table(TableContent::Signal),
        Err(WriteError::ContentTypeAlreadyWritten(ContentType::SignalTable))
    );
    let file = w.finish().unwrap();
    let reader = Reader::from_reader(file).unwrap();
    let footer = reader.footer.footer().unwrap();
    assert_eq!(footer.contents, vec![signal]);
}

#[test]
fn other_tables_may_repeat() {
    let mut w = new_writer();
    let a = write_table(&mut w, TableContent::Other, &[b"first"]);
    let b = write_table(&mut w, TableContent::Other, &[b"second"]);
    assert_eq!(b.offset(), a.offset() + a.length() + 16);
    let reader = Reader::from_reader(w.finish().unwrap()).unwrap();
    assert_eq!(reader.footer.footer().unwrap().contents, vec![a, b]);
}

#[test]
fn open_twice_and_write_without_table() {
    let mut w = new_writer();
    assert_eq!(w.write_table_bytes(b"x"), Err(WriteError::NoTableOpen));
    assert_eq!(w.close_table().err(), Some(WriteError::NoTableOpen));
    w.open_table(TableContent::Read).unwrap();
    assert_eq!(w.open_table(TableContent::Signal), Err(WriteError::TableAlreadyOpen));
    assert_eq!(w.finish().err(), Some(WriteError::TableStillOpen));
}

#[test]
fn schema_mismatch() {
    let mut w = new_writer();
    let mut g = TableWriteGuard::new(&mut w, TableContent::Read).unwrap();
    g.write_batch(&mut w, b"schema a", b"batch 1").unwrap();
    let len = w.buf.len();
    assert_eq!(g.write_batch(&mut w, b"schema b", b"batch 2"), Err(WriteError::SchemaMismatch));
    assert_eq!(w.buf.len(), len);
    g.write_batch(&mut w, b"schema a", b"batch 3").unwrap();
    let t = g.finish(&mut w).unwrap();
    let reader = Reader::from_reader(w.finish().unwrap()).unwrap();
    let bytes = reader.table_bytes(&t).unwrap();
    assert_eq!(&bytes[..14], b"batch 1batch 3");
}

#[test]
fn write_then_read_three_tables() {
    let mut w = new_writer();
    let run_info = write_table(&mut w, TableContent::RunInfo, &[b"one run info row"]);
    let s4: Vec<i16> = vec![100, 200, 300, 400];
    let s7: Vec<i16> = vec![1, -1, 2, -2, 3, -3, 1000];
    let b4 = encode(&s4).unwrap();
    let b7 = encode(&s7).unwrap();
    let signal = write_table(&mut w, TableContent::Signal, &[&b4, &b7]);
    let reads = write_table(&mut w, TableContent::Read, &[b"one read row: signal = [0, 1]"]);
    let file = w.finish().unwrap();

    let reader = Reader::from_reader(file).unwrap();
    let footer = reader.footer.footer().unwrap();
    assert_eq!(footer.contents, vec![run_info, signal, reads]);
    for t in &footer.contents {
        assert_eq!((t.offset() + t.length()) % 8, 0);
    }
    for pair in footer.contents.windows(2) {
        assert!(pair[0].offset() + pair[0].length() <= pair[1].offset());
    }
    let st = reader.signal_table().unwrap();
    let region = reader.table_bytes(st.as_ref()).unwrap();
    let rows = [&region[..b4.len()], &region[b4.len()..b4.len() + b7.len()]];
    assert_eq!(decode(rows[0], 4).unwrap().len(), 4);
    assert_eq!(decode(rows[1], 7).unwrap(), s7);
    assert_eq!(decode(rows[0], 4).unwrap(), s4);
    assert_eq!(reader.read_table().unwrap().as_ref(), &reads);
}

#[test]
fn table_out_of_range() {
    let mut w = new_writer();
    write_table(&mut w, TableContent::Signal, &[b"x"]);
    let reader = Reader::from_reader(w.finish().unwrap()).unwrap();
    let far = TableInfo::new(1 << 40, 8, ContentType::SignalTable);
    assert_eq!(reader.table_bytes(&far).err(), Some(Pod5Error::TableOutOfRange));
    let negative = TableInfo::new(-8, 8, ContentType::SignalTable);
    assert_eq!(reader.table_bytes(&negative).err(), Some(Pod5Error::TableOutOfRange));
}

#[test]
fn fresh_writers_use_distinct_markers() {
    let a = Writer::from_writer(vec![9, 9, 9]);
    let b = Writer::from_writer(Vec::new());
    assert_eq!(a.buf.len(), 24);
    assert_eq!(&a.buf[..8], &SIG);
    assert_ne!(a.section_marker, b.section_marker);
    assert_eq!(a.file_identifier.len(), 36);
    assert_eq!(a.file_identifier.matches('-').count(), 4);
}

#[test]
fn every_section_marker_is_the_same() {
    let mut w = new_writer();
    let a = write_table(&mut w, TableContent::RunInfo, &[b"abc"]);
    let b = write_table(&mut w, TableContent::Signal, &[b"0123456789abcdef0"]);
    let c = write_table(&mut w, TableContent::Other, &[b""]);
    let file = w.finish().unwrap();
    let n = file.len();
    let mut marker_positions = vec![8usize];
    for t in [a, b, c] {
        let end = (t.offset() + t.length()) as usize;
        assert_eq!(end % 8, 0);
        assert!(t.offset() >= 24);
        marker_positions.push(end);
    }
    marker_positions.push(n - 24);
    for p in marker_positions {
        assert_eq!(&file[p..p + 16], &MARKER);
    }
    assert_eq!(b.offset(), a.offset() + a.length() + 16);
    assert_eq!(c.offset(), b.offset() + b.length() + 16);
    let flen = i64::from_le_bytes(file[n - 32..n - 24].try_into().unwrap()) as usize;
    let footer_magic_at = n - (24 + 8 + flen + 8);
    assert_eq!(&file[footer_magic_at..footer_magic_at + 8], b"FOOTER\0\0");
    assert!(((c.offset() + c.length()) as usize) < footer_magic_at);
}

#[test]
fn reader_checks_section_markers() {
    let mut w = new_writer();
    let t = write_table(&mut w, TableContent::Signal, &[b"twelve bytes"]);
    let file = w.finish().unwrap();
    let reader = Reader::from_reader(file.clone()).unwrap();
    assert!(reader.section_markers_consistent());

    let mut broken = file;
    let end = (t.offset() + t.length()) as usize;
    broken[end + 3] ^= 0x55;
    let reader = Reader::from_reader(broken).unwrap();
    assert!(!reader.section_markers_consistent());
}
