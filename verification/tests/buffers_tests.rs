use rusty_sdf::buffers::{decode_f64_words, write_f64_array, ArrayWriteError};

#[test]
fn raw_words_are_capped() {
    let mut buf = Vec::new();
    for v in [1.0f64, 2.0, 3.0] {
        buf.extend_from_slice(&v.to_le_bytes());
    }
    buf.push(7);
    let all = decode_f64_words(&buf, 11).unwrap();
    assert_eq!(all, vec![1.0f64.to_bits(), 2.0f64.to_bits(), 3.0f64.to_bits()]);
    let two = decode_f64_words(&buf, 2).unwrap();
    assert_eq!(two.len(), 2);
}

#[test]
fn typed_words_stop_at_the_end() {
    let mut buf = vec![250u8, 3, 0, 9];
    buf.extend_from_slice(&4.0f64.to_le_bytes());
    buf.extend_from_slice(&5.0f64.to_le_bytes());
    let w = decode_f64_words(&buf, 0).unwrap();
    assert_eq!(w, vec![4.0f64.to_bits(), 5.0f64.to_bits()]);
    assert_eq!(decode_f64_words(&[250u8, 1], 5), None);
    assert_eq!(decode_f64_words(&[], 5), Some(vec![]));
}

#[test]
fn typed_array_written_when_it_fits() {
    let vals = [1.0f64.to_bits()];
    let mut dst = vec![0xAAu8; 14];
    assert_eq!(write_f64_array(&vals, &mut dst), Ok(12));
    let mut expected = vec![250u8, 1, 0, 9];
    expected.extend_from_slice(&1.0f64.to_le_bytes());
    expected.extend_from_slice(&[0xAA, 0xAA]);
    assert_eq!(dst, expected);
    let mut small = vec![0u8; 11];
    assert_eq!(write_f64_array(&vals, &mut small), Err(ArrayWriteError::TooSmall));
    assert_eq!(small, vec![0u8; 11]);
    let mut none: Vec<u8> = Vec::new();
    assert_eq!(write_f64_array(&vals, &mut none), Err(ArrayWriteError::ZeroLength));
    assert_eq!(ArrayWriteError::TooSmall.code(), -2);
}

#[test]
fn written_array_decodes_back() {
    let vals = [0.5f64.to_bits(), (-7.25f64).to_bits()];
    let mut dst = vec![0u8; 64];
    let n = write_f64_array(&vals, &mut dst).unwrap();
    assert_eq!(decode_f64_words(&dst[..n], 0).unwrap(), vals.to_vec());
}
