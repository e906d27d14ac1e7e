use pod5::svb16::{
    decode, decode_inner, encode, encode_inner, max_encoded_length, num_ctrl_bytes, split_data,
    svb_decode, svb_encode, zigzag_decode, zigzag_encode, CodecError,
};

#[test]
fn svb16_test_num_ctrl_bytes() {
    assert_eq!(num_ctrl_bytes(5), 1);
    assert_eq!(num_ctrl_bytes(8), 1);
    assert_eq!(num_ctrl_bytes(9), 2);
    assert_eq!(num_ctrl_bytes(17), 3);
}

#[test]
fn lib_test_num_ctrl_bytes() {
    assert_eq!(num_ctrl_bytes(5), 1);
    assert_eq!(num_ctrl_bytes(8), 1);
    assert_eq!(num_ctrl_bytes(9), 2);
    assert_eq!(num_ctrl_bytes(17), 3);
}

#[test]
fn svb16_test_decoder() {
    let samples = 5;
    let answer = [10u16, 1234, 20, 2345, 30];

    // answer in u8 format
    let xs = [0b10101010u8, 10, 0xd2, 0x04, 20, 0x29, 0x09, 30];
    let (ctrl, data) = split_data(&xs, samples);
    assert_eq!(ctrl, &[0b10101010u8]);
    assert_eq!(data.len(), 7);
    let decoded = svb_decode(&xs, samples).unwrap();
    assert_eq!(decoded, answer);
}

#[test]
fn lib_test_decoder() {
    let samples = 5;
    let answer = [10u16, 1234, 20, 2345, 30];

    let xs = [0b10101010u8, 10, 0xd2, 0x04, 20, 0x29, 0x09, 30];
    let (ctrl, data) = split_data(&xs, samples);
    assert_eq!(ctrl.len() + data.len(), xs.len());
    let decoded = svb_decode(&xs, samples).unwrap();
    assert_eq!(decoded, answer);
}

#[test]
fn svb16_test_roundtrip() {
    let nums = [10i16, 1234, 20, 2345, 30];
    assert_eq!(decode(&encode(&nums).unwrap(), nums.len()).unwrap(), nums);
}

#[test]
fn lib_test_roundtrip() {
    let nums = [10i16, 1234, 20, 2345, 30];
    assert_eq!(decode(&encode(&nums).unwrap(), nums.len()).unwrap(), nums);
}

#[test]
fn test_zstd() {
    let x = max_encoded_length(102400);
    println!("max encoded: {x}");
    println!("{:?}", zstd::zstd_safe::compress_bound(x));
    assert_eq!(x, 12800 + 204800);
}

#[test]
fn empty_input_round_trip() {
    let blob = encode(&[]).unwrap();
    assert_eq!(decode(&blob, 0).unwrap(), Vec::<i16>::new());
    assert_eq!(encode_inner(&[]), Vec::<u8>::new());
}

#[test]
fn single_sample_round_trip() {
    for x in [0i16, 1, -1, 127, 128, -129, 300, i16::MAX, i16::MIN] {
        let blob = encode(&[x]).unwrap();
        assert_eq!(decode(&blob, 1).unwrap(), vec![x]);
        let inner = encode_inner(&[x]);
        let wide = zigzag_encode(x) > 255;
        assert_eq!(inner[0], if wide { 1 } else { 0 });
        assert_eq!(inner.len(), 1 + if wide { 2 } else { 1 });
    }
}

#[test]
fn eight_and_nine_samples_control_bytes() {
    let eight = [1i16, 2, 3, 4, 5, 6, 7, 8];
    let nine = [1i16, 2, 3, 4, 5, 6, 7, 8, 9];
    let inner8 = encode_inner(&eight);
    let inner9 = encode_inner(&nine);
    // all deltas are 1, zig-zagged to 2: one data byte each
    assert_eq!(inner8, vec![0, 2, 2, 2, 2, 2, 2, 2, 2]);
    assert_eq!(inner9, vec![0, 0, 2, 2, 2, 2, 2, 2, 2, 2, 2]);
    assert_eq!(decode(&encode(&eight).unwrap(), 8).unwrap(), eight);
    assert_eq!(decode(&encode(&nine).unwrap(), 9).unwrap(), nine);
}

#[test]
fn extreme_samples_take_two_bytes() {
    assert_eq!(zigzag_encode(i16::MAX), 65534);
    assert_eq!(zigzag_encode(i16::MIN), 65535);
    assert_eq!(encode_inner(&[i16::MAX]), vec![1, 0xfe, 0xff]);
    assert_eq!(encode_inner(&[i16::MIN]), vec![1, 0xff, 0xff]);
    // 0, then a delta of i16::MAX, then a delta that wraps to 1
    let xs = [0i16, i16::MAX, i16::MIN];
    assert_eq!(encode_inner(&xs), vec![0b010, 0, 0xfe, 0xff, 2]);
    assert_eq!(decode(&encode(&xs).unwrap(), 3).unwrap(), xs);
}

#[test]
fn five_sample_signal_round_trip() {
    let xs = [10i16, 1234, 20, 2345, 30];
    let blob = encode(&xs).unwrap();
    assert_eq!(decode(&blob, 5).unwrap(), xs);
    let inner = zstd::decode_all(blob.as_slice()).unwrap();
    assert_eq!(inner, encode_inner(&xs));
    // deltas 10, 1224, -1214, 2325, -2315 zig-zag to 20, 2448, 2427, 4650, 4629
    assert_eq!(inner[0], 0b0001_1110);
    assert_eq!(decode_inner(&inner, 5).unwrap(), xs);
}

#[test]
fn zigzag_values() {
    assert_eq!(zigzag_encode(0), 0);
    assert_eq!(zigzag_encode(-1), 1);
    assert_eq!(zigzag_encode(1), 2);
    assert_eq!(zigzag_encode(-2), 3);
    for u in [0u16, 1, 2, 3, 255, 256, 65534, 65535] {
        assert_eq!(zigzag_encode(zigzag_decode(u)), u);
    }
    assert_eq!(zigzag_decode(3), -2);
}

#[test]
fn trailing_control_bits_are_ignored() {
    // value 7 in one byte; the upper control bits are set but unused
    assert_eq!(svb_decode(&[0b1111_1110, 7], 1).unwrap(), vec![7u16]);
}

#[test]
fn svb_layout_of_values() {
    assert_eq!(svb_encode(&[10, 1234, 20, 2345, 30]), vec![0b01010, 10, 0xd2, 0x04, 20, 0x29, 0x09, 30]);
}

#[test]
fn truncated_inner_buffer() {
    // the control bit announces two data bytes, only one is there
    assert_eq!(decode_inner(&[1, 5], 1), Err(CodecError::Truncated));
    // no control byte at all
    assert_eq!(decode_inner(&[], 1), Err(CodecError::Truncated));
    assert_eq!(svb_decode(&[], 3), None);
}

#[test]
fn blob_that_is_not_zstd() {
    assert_eq!(decode(&[1, 2, 3, 4], 1), Err(CodecError::Decompress));
}

#[test]
fn compressed_blob_differs_from_inner_buffer() {
    let xs = [5i16; 64];
    let blob = encode(&xs).unwrap();
    let inner = encode_inner(&xs);
    assert_ne!(blob, inner);
    assert_eq!(zstd::decode_all(blob.as_slice()).unwrap(), inner);
}
