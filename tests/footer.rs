use pod5::footer::{
    parse_footer, table_name_to_content_type, ContentType, FooterBuilder, FooterError, ParsedFooter,
    TableInfo,
};

fn builder() -> FooterBuilder {
    FooterBuilder::new(
        "67e55044-10b1-426f-9247-bb680e5fe0c8".to_string(),
        "pod5-rs".to_string(),
        "0.0.40".to_string(),
    )
}

#[test]
fn footer_round_trip_three_tables() {
    let tables = vec![
        TableInfo::new(24, 64, ContentType::RunInfoTable),
        TableInfo::new(104, 128, ContentType::SignalTable),
        TableInfo::new(248, 32, ContentType::ReadsTable),
    ];
    let bytes = builder().build_footer(&tables);
    let footer = parse_footer(&bytes).unwrap();
    assert_eq!(footer.contents, tables);
    assert_eq!(footer.file_identifier, "67e55044-10b1-426f-9247-bb680e5fe0c8");
    assert_eq!(footer.software, "pod5-rs");
    assert_eq!(footer.pod5_version, "0.0.40");

    let parsed = ParsedFooter::new(bytes);
    assert_eq!(parsed.read_table().unwrap().as_ref(), &tables[2]);
    assert_eq!(parsed.signal_table().unwrap().as_ref(), &tables[1]);
    assert_eq!(parsed.run_info_table().unwrap().as_ref(), &tables[0]);
    assert_eq!(parsed.run_info_table().unwrap().as_ref().offset(), 24);
    assert_eq!(parsed.run_info_table().unwrap().as_ref().length(), 64);
}

#[test]
fn footer_round_trip_odd_and_empty_lists() {
    for n in 0..5usize {
        let tables: Vec<TableInfo> = (0..n)
            .map(|i| TableInfo::new(24 + 40 * i as i64, 24, ContentType::OtherIndex))
            .collect();
        let bytes = builder().build_footer(&tables);
        assert_eq!(parse_footer(&bytes).unwrap().contents, tables);
    }
}

#[test]
fn footer_negative_and_large_values() {
    let tables = vec![TableInfo::new(i64::MAX, -1, ContentType::ReadIdIndex)];
    let bytes = builder().build_footer(&tables);
    assert_eq!(parse_footer(&bytes).unwrap().contents, tables);
}

#[test]
fn find_table_takes_the_first_entry() {
    let tables = vec![
        TableInfo::new(24, 8, ContentType::OtherIndex),
        TableInfo::new(48, 8, ContentType::OtherIndex),
    ];
    let parsed = ParsedFooter::new(builder().build_footer(&tables));
    assert_eq!(
        parsed.find_table(ContentType::OtherIndex, FooterError::ReadTableMissing),
        Ok(tables[0])
    );
}

#[test]
fn missing_tables() {
    let tables = vec![TableInfo::new(24, 8, ContentType::SignalTable)];
    let parsed = ParsedFooter::new(builder().build_footer(&tables));
    assert_eq!(parsed.read_table().err(), Some(FooterError::ReadTableMissing));
    assert_eq!(parsed.run_info_table().err(), Some(FooterError::RunInfoTableMissing));
    assert!(parsed.signal_table().is_ok());
    let empty = ParsedFooter::new(builder().build_footer(&[]));
    assert_eq!(empty.signal_table().err(), Some(FooterError::SignalTableMissing));
}

#[test]
fn malformed_footer() {
    assert_eq!(parse_footer(&[]).err(), Some(FooterError::Malformed));
    assert_eq!(parse_footer(&[1, 2, 3]).err(), Some(FooterError::Malformed));
    assert_eq!(parse_footer(&[200, 0, 0, 0, 1, 2, 3, 4]).err(), Some(FooterError::Malformed));
    let mut bytes = builder().build_footer(&[TableInfo::new(24, 8, ContentType::SignalTable)]);
    bytes.truncate(bytes.len() / 2);
    assert_eq!(parse_footer(&bytes).err(), Some(FooterError::Malformed));
    assert_eq!(ParsedFooter::new(vec![0; 3]).signal_table().err(), Some(FooterError::Malformed));
}

#[test]
fn footer_without_contents() {
    // root offset 8; vtable at 4 with no fields; table at 8 pointing back 4
    let bytes = [8u8, 0, 0, 0, 4, 0, 4, 0, 4, 0, 0, 0];
    assert_eq!(parse_footer(&bytes).err(), Some(FooterError::ContentsMissing));
}

#[test]
fn unknown_content_type_is_malformed() {
    let mut bytes = builder().build_footer(&[TableInfo::new(24, 8, ContentType::SignalTable)]);
    // the single entry table starts at 52 + 4 + 4 = 60; its tag is at +20
    assert_eq!(bytes[80], 1);
    bytes[80] = 9;
    assert_eq!(parse_footer(&bytes).err(), Some(FooterError::Malformed));
}

#[test]
fn content_type_tags() {
    let all = [
        ContentType::ReadsTable,
        ContentType::SignalTable,
        ContentType::ReadIdIndex,
        ContentType::OtherIndex,
        ContentType::RunInfoTable,
    ];
    for (i, c) in all.iter().enumerate() {
        assert_eq!(c.tag(), i as i16);
        assert_eq!(ContentType::from_tag(i as i16), Some(*c));
    }
    assert_eq!(ContentType::from_tag(5), None);
    assert_eq!(ContentType::from_tag(-1), None);
}

#[test]
fn write_footer_appends_magic_footer_and_length() {
    let tables = vec![TableInfo::new(24, 8, ContentType::RunInfoTable)];
    let mut out = vec![7u8];
    builder().write_footer(&tables, &mut out);
    let footer = builder().build_footer(&tables);
    assert_eq!(&out[1..9], b"FOOTER\0\0");
    assert_eq!(&out[9..9 + footer.len()], footer.as_slice());
    let len_bytes: [u8; 8] = out[9 + footer.len()..].try_into().unwrap();
    assert_eq!(i64::from_le_bytes(len_bytes), footer.len() as i64);
}

#[test]
fn table_names() {
    assert_eq!(table_name_to_content_type("signal"), Some(ContentType::SignalTable));
    assert_eq!(table_name_to_content_type("run_info"), Some(ContentType::RunInfoTable));
    assert_eq!(table_name_to_content_type("reads"), Some(ContentType::ReadsTable));
    assert_eq!(table_name_to_content_type("read_id"), Some(ContentType::ReadIdIndex));
    assert_eq!(table_name_to_content_type("other"), None);
    assert_eq!(table_name_to_content_type(""), None);
}

const FILE_ID: &str = "67e55044-10b1-426f-9247-bb680e5fe0c8";

/// A footer made by flatbuffers' own builder, laid out as generated code
/// lays out the footer schema.
fn flatbuffers_footer(tables: &[TableInfo]) -> Vec<u8> {
    let mut b = flatbuffers::FlatBufferBuilder::new();
    let mut entries = Vec::new();
    for t in tables {
        let start = b.start_table();
        b.push_slot::<i64>(6, t.length(), 0);
        b.push_slot::<i64>(4, t.offset(), 0);
        b.push_slot::<i16>(10, t.content_type().tag(), 0);
        b.push_slot::<i16>(8, 0, 0);
        entries.push(b.end_table(start));
    }
    let contents = b.create_vector(&entries);
    let file_identifier = b.create_string(FILE_ID);
    let software = b.create_string("pod5-rs");
    let version = b.create_string("0.0.40");
    let start = b.start_table();
    b.push_slot_always(10, contents);
    b.push_slot_always(8, version);
    b.push_slot_always(6, software);
    b.push_slot_always(4, file_identifier);
    let root = b.end_table(start);
    b.finish_minimal(root);
    b.finished_data().to_vec()
}

/// Runs flatbuffers' verifier over a footer, field by field as the footer
/// schema declares them.
fn flatbuffers_verify(bytes: &[u8]) -> Result<(), flatbuffers::InvalidFlatbuffer> {
    let opts = flatbuffers::VerifierOptions::default();
    let mut v = flatbuffers::Verifier::new(&opts, bytes);
    let root = v.get_uoffset(0)? as usize;
    let mut tv = v
        .visit_table(root)?
        .visit_field::<flatbuffers::ForwardsUOffset<&str>>("file_identifier", 4, false)?
        .visit_field::<flatbuffers::ForwardsUOffset<&str>>("software", 6, false)?
        .visit_field::<flatbuffers::ForwardsUOffset<&str>>("pod5_version", 8, false)?;
    if let Some(field) = tv.deref(10)? {
        let vf = tv.verifier();
        let vector = field + vf.get_uoffset(field)? as usize;
        let n = vf.get_uoffset(vector)? as usize;
        for k in 0..n {
            let slot = vector + 4 + 4 * k;
            let table = slot + vf.get_uoffset(slot)? as usize;
            vf.visit_table(table)?
                .visit_field::<i64>("offset", 4, false)?
                .visit_field::<i64>("length", 6, false)?
                .visit_field::<i16>("format", 8, false)?
                .visit_field::<i16>("content_type", 10, false)?
                .finish();
        }
    }
    tv.finish();
    Ok(())
}

fn sample_tables() -> Vec<TableInfo> {
    vec![
        TableInfo::new(24, 64, ContentType::RunInfoTable),
        TableInfo::new(104, 128, ContentType::SignalTable),
        TableInfo::new(0, 0, ContentType::ReadsTable),
    ]
}

#[test]
fn footer_from_flatbuffers_builder_parses() {
    let tables = sample_tables();
    let bytes = flatbuffers_footer(&tables);
    let footer = parse_footer(&bytes).unwrap();
    assert_eq!(footer.contents, tables);
    assert_eq!(footer.file_identifier, FILE_ID);
    assert_eq!(footer.software, "pod5-rs");
    assert_eq!(footer.pod5_version, "0.0.40");
    assert!(flatbuffers_verify(&bytes).is_ok());
}

#[test]
fn built_footer_passes_flatbuffers_verifier() {
    for n in 0..4 {
        let tables: Vec<TableInfo> = sample_tables().into_iter().take(n).collect();
        let bytes = builder().build_footer(&tables);
        assert!(flatbuffers_verify(&bytes).is_ok(), "{n} tables");
    }
}

#[test]
fn footer_string_that_is_not_utf8() {
    let tables = vec![TableInfo::new(24, 8, ContentType::SignalTable)];
    let mut bytes = builder().build_footer(&tables);
    // one entry: entries start at 60, strings at 84; the first string's bytes at 88
    assert_eq!(bytes[88], b'6');
    bytes[88] = 0xff;
    assert_eq!(parse_footer(&bytes).err(), Some(FooterError::Malformed));
    assert!(flatbuffers_verify(&bytes).is_err());
}
