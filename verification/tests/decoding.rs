use cobs_simd::{cobs_decode, cobs_encode_to_vec};

#[test]
fn decoding_no_zeros_short() {
    assert_eq!(
        cobs_decode(&[0x05, 0x11, 0x22, 0x33, 0x44]),
        Some(vec![0x11, 0x22, 0x33, 0x44])
    )
}

#[test]
fn decoding_empty_stream() {
    assert_eq!(cobs_decode(&[]), Some(vec![]));
}

#[test]
fn decoding_separators() {
    assert_eq!(cobs_decode(&[0x01, 0x02, 0x11, 0x01]), Some(vec![0, 0x11, 0]));
    assert_eq!(cobs_decode(&[1, 1, 1]), Some(vec![0, 0]));
}

#[test]
fn decoding_full_record_appends_no_zero() {
    // a length byte of 255 right before the end of the stream: no
    // separator zero follows the 254 payload bytes
    let mut stream = vec![0xFF_u8];
    stream.extend(vec![8_u8; 254]);
    assert_eq!(cobs_decode(&stream), Some(vec![8_u8; 254]));
}

#[test]
fn decoding_truncated_record_fails() {
    // the length byte claims more payload bytes than remain
    assert_eq!(cobs_decode(&[0x05, 0x11, 0x22]), None);
    assert_eq!(cobs_decode(&[0x02]), None);
    let mut stream = vec![0xFF_u8];
    stream.extend(vec![8_u8; 200]);
    assert_eq!(cobs_decode(&stream), None);
}

#[test]
fn decoding_zero_length_byte_fails() {
    assert_eq!(cobs_decode(&[0x00]), None);
    assert_eq!(cobs_decode(&[0x02, 0x11, 0x00]), None);
}

#[test]
fn round_trip() {
    let mut inputs: Vec<Vec<u8>> = vec![
        vec![],
        vec![0],
        vec![0, 0],
        vec![0x11, 0x22, 0x00, 0x33],
        vec![1_u8; 254],
        vec![1_u8; 255],
        vec![1_u8; 508],
        (0..=255u8).collect(),
    ];
    let mut ends_in_full_run = vec![1_u8; 255];
    ends_in_full_run[254] = 0;
    inputs.push(ends_in_full_run);
    for input in inputs {
        let encoded = cobs_encode_to_vec(&input);
        assert_eq!(cobs_decode(&encoded), Some(input));
    }
}
