use cobs_simd::{cobs_encode_to, cobs_encode_to_vec, encoded_size_upper_bound, Method};

fn all_methods() -> Vec<Method> {
    vec![
        Method::Trivial,
        Method::Crazy,
        Method::Simd16,
        Method::StdSimd8,
        Method::StdSimd16,
        Method::StdSimd32,
        Method::StdSimd8TwoStage,
        Method::StdSimd16TwoStage,
        Method::StdSimd32TwoStage,
    ]
}

fn encode_with(input: &[u8], method: Method) -> Vec<u8> {
    let mut buffer_size = encoded_size_upper_bound(input.len());
    if buffer_size == 0 {
        buffer_size = 1;
    }
    let mut output_data = vec![0; buffer_size];
    let s = cobs_encode_to(input, &mut output_data, method);
    output_data.truncate(s);
    output_data
}

fn assert_all_encode_to(input: &[u8], expected: &[u8]) {
    assert_eq!(cobs_encode_to_vec(input), expected);
    for method in all_methods() {
        assert_eq!(encode_with(input, method.clone()), expected);
    }
}

#[test]
fn encoding_1_one_zero() {
    assert_all_encode_to(&[0], &[1, 1]);
}

#[test]
fn encoding_2_only_zeros_short() {
    assert_all_encode_to(&[0, 0], &[1, 1, 1]);
}

#[test]
fn encoding_3() {
    assert_all_encode_to(&[0, 0x11, 0], &[0x01, 0x02, 0x11, 0x01]);
}

#[test]
fn encoding_4_zeros_short() {
    assert_all_encode_to(&[0x11, 0x22, 0x00, 0x33], &[0x03, 0x11, 0x22, 0x02, 0x33]);
}

#[test]
fn encoding_5_no_zeros_short() {
    assert_all_encode_to(&[0x11, 0x22, 0x33, 0x44], &[0x05, 0x11, 0x22, 0x33, 0x44]);
}

#[test]
fn encoding_9_no_zeros_long() {
    let input: Vec<_> = (0x01..=0xFF_u8).collect();

    let mut expected_output = vec![0xFF];
    expected_output.extend(0x01..=0xFE);
    expected_output.extend([0x02, 0xFF]);

    assert_all_encode_to(&input, &expected_output);
}

#[test]
fn encoding_empty_input() {
    assert_all_encode_to(&[], &[1]);
}

#[test]
fn encoding_full_run_exactly() {
    // 254 non-zero bytes: one full record, no trailing empty record
    let input = vec![3_u8; 254];
    let mut expected = vec![0xFF];
    expected.extend(vec![3_u8; 254]);
    assert_all_encode_to(&input, &expected);
}

#[test]
fn encoding_full_run_then_zero() {
    // a zero right after a full 254-byte run: the zero yields an empty
    // record, and the implicit trailing zero yields another
    let mut input = vec![3_u8; 255];
    input[254] = 0;
    let mut expected = vec![0xFF];
    expected.extend(vec![3_u8; 254]);
    expected.extend([0x01, 0x01]);
    assert_all_encode_to(&input, &expected);
}

#[test]
fn encoding_two_full_runs() {
    let input = vec![7_u8; 508];
    let mut expected = vec![0xFF];
    expected.extend(vec![7_u8; 254]);
    expected.push(0xFF);
    expected.extend(vec![7_u8; 254]);
    assert_all_encode_to(&input, &expected);
}

#[test]
fn encoding_no_zero_byte_in_output() {
    let inputs: Vec<Vec<u8>> = vec![
        vec![],
        vec![0],
        vec![0, 0, 0],
        vec![1, 0, 2, 0, 3],
        vec![9_u8; 300],
        (0..=255u8).collect(),
    ];
    for input in inputs {
        for byte in cobs_encode_to_vec(&input) {
            assert_ne!(byte, 0);
        }
    }
}

#[test]
fn encoding_fits_upper_bound() {
    let inputs: Vec<Vec<u8>> = vec![
        vec![0],
        vec![5],
        vec![0, 0, 0, 0],
        vec![9_u8; 254],
        vec![9_u8; 255],
        vec![9_u8; 600],
        (0..=255u8).collect(),
    ];
    for input in inputs {
        let encoded = cobs_encode_to_vec(&input);
        assert!(encoded.len() <= encoded_size_upper_bound(input.len()));
    }
}

#[test]
fn encoding_leaves_tail_of_buffer_alone() {
    let input = [1, 3, 0, 7, 0, 8];
    let mut output = vec![0xAA_u8; 32];
    let written = cobs_encode_to(&input, &mut output, Method::Trivial);
    assert_eq!(&output[..written], &[3, 1, 3, 2, 7, 2, 8]);
    for k in written..output.len() {
        assert_eq!(output[k], 0xAA);
    }
}

#[test]
fn size_upper_bound_values() {
    assert_eq!(encoded_size_upper_bound(0), 0);
    assert_eq!(encoded_size_upper_bound(1), 2);
    assert_eq!(encoded_size_upper_bound(253), 254);
    assert_eq!(encoded_size_upper_bound(254), 255);
    assert_eq!(encoded_size_upper_bound(255), 257);
    assert_eq!(encoded_size_upper_bound(508), 510);
}
