use pod5::record::{combine_signal_rows, decompress_rows, ReadId, Record, SignalData};
use pod5::svb16::{encode, CodecError};
use pod5::writer::pod5_metadata;

const TEXT: &str = "67e55044-10b1-426f-9247-bb680e5fe0c8";
const BYTES: [u8; 16] = [
    0x67, 0xe5, 0x50, 0x44, 0x10, 0xb1, 0x42, 0x6f, 0x92, 0x47, 0xbb, 0x68, 0x0e, 0x5f, 0xe0, 0xc8,
];

#[test]
fn read_id_text() {
    let id = ReadId::from_slice(&BYTES);
    assert_eq!(id.raw(), &BYTES);
    assert_eq!(id.uuid().unwrap(), TEXT);
    assert_eq!(ReadId::new(vec![1, 2, 3]).uuid(), None);
}

#[test]
fn read_id_from_text() {
    let id = ReadId::from_uuid(TEXT).unwrap();
    assert_eq!(id.raw(), &BYTES);
    assert_eq!(ReadId::from_uuid("not an identifier"), None);
}

#[test]
fn record_from_row() {
    let signal = vec![100i16, 200, 300, 400];
    let blob = encode(&signal).unwrap();
    let rec = Record::from_row(&BYTES, 4, &blob).unwrap();
    assert_eq!(rec, Record::new(ReadId::from_slice(&BYTES), 4, SignalData::from_raw_signal(signal)));
    assert_eq!(Record::from_row(&BYTES, 4, &[0, 1]), Err(CodecError::Decompress));
}

#[test]
fn rows_decode_one_by_one() {
    let a = vec![1i16, 2, 3, 4];
    let b = vec![-5i16, 6, -7, 8, -9, 10, -11];
    let blobs = vec![encode(&a).unwrap(), encode(&b).unwrap()];
    let rows = decompress_rows(&blobs, &[4, 7]).unwrap();
    assert_eq!(rows, vec![a.clone(), b.clone()]);
    assert_eq!(rows[0].len(), 4);
    assert_eq!(rows[1].len(), 7);
    let bad = vec![encode(&a).unwrap(), vec![9, 9, 9]];
    assert_eq!(decompress_rows(&bad, &[4, 7]), Err(CodecError::Decompress));
}

#[test]
fn region_metadata() {
    let m = pod5_metadata(&TEXT.to_string());
    assert_eq!(m[0], ("MINKNOW:pod5_version".to_string(), "0.0.40".to_string()));
    assert_eq!(m[1], ("MINKNOW:software".to_string(), "pod5-rs".to_string()));
    assert_eq!(m[2], ("MINKNOW:file_identifier".to_string(), TEXT.to_string()));
}

#[test]
fn read_signal_from_rows() {
    let rows = vec![vec![1i16, 2], vec![3i16], vec![4i16, 5, 6]];
    assert_eq!(combine_signal_rows(&rows, &[0, 2]), Some(vec![1, 2, 4, 5, 6]));
    assert_eq!(combine_signal_rows(&rows, &[2, 0]), Some(vec![4, 5, 6, 1, 2]));
    assert_eq!(combine_signal_rows(&rows, &[]), Some(vec![]));
    assert_eq!(combine_signal_rows(&rows, &[1, 3]), None);
}
