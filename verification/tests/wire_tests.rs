use rusty_sdf::wire::{GMBufferReader, GMBufferWriter, GMType, GMValue};

fn unpack(bytes: &[u8]) -> Option<GMValue<'_>> {
    let mut r = GMBufferReader::new(bytes);
    r.unpack_value()
}

#[test]
fn gm_type_tags_round_trip() {
    let all = [
        GMType::U8,
        GMType::I8,
        GMType::U16,
        GMType::I16,
        GMType::U32,
        GMType::I32,
        GMType::F16,
        GMType::F32,
        GMType::F64,
        GMType::Bool,
        GMType::String,
        GMType::U64,
        GMType::TypedStruct,
        GMType::TypedArray,
        GMType::Undefined,
        GMType::Pointer,
        GMType::Buffer,
        GMType::Array,
        GMType::Struct,
    ];
    for t in all {
        assert_eq!(GMType::try_from(t.tag()), Ok(t));
    }
    assert_eq!(GMType::try_from(0), Err(()));
    assert_eq!(GMType::try_from(13), Err(()));
    assert_eq!(GMType::String.tag(), 11);
    assert_eq!(GMType::Struct.tag(), 255);
}

#[test]
fn writer_bytes_are_little_endian() {
    let mut w = GMBufferWriter::new(16);
    assert!(w.is_empty());
    w.write_u8(7);
    w.write_u32(0x0102_0304);
    w.write_bool(true);
    w.write_bool(false);
    assert_eq!(w.data, vec![1, 7, 5, 4, 3, 2, 1, 10, 1, 10, 0]);
    assert_eq!(w.len(), 11);
    assert!(!w.is_empty());
}

#[test]
fn write_f64_uses_the_bits() {
    let mut w = GMBufferWriter::new(0);
    w.write_f64(1.5f64.to_bits());
    let mut expected = vec![9u8];
    expected.extend_from_slice(&1.5f64.to_le_bytes());
    assert_eq!(w.data, expected);
}

#[test]
fn write_string_appends_nul() {
    let mut w = GMBufferWriter::new(0);
    w.write_string("hé");
    assert_eq!(w.data, vec![11, b'h', 0xC3, 0xA9, 0]);
}

#[test]
fn write_array_and_struct_headers() {
    let mut w = GMBufferWriter::new(0);
    w.write_array(2, |w| {
        w.write_u8(1);
        w.write_u8(2);
    });
    assert_eq!(w.data, vec![254, 2, 0, 1, 1, 1, 2]);
    let mut s = GMBufferWriter::new(0);
    s.write_struct(1, |w| {
        w.write_string("k");
        w.write_bool(true);
    });
    assert_eq!(s.data, vec![255, 1, 0, 11, b'k', 0, 10, 1]);
}

#[test]
fn typed_f64_array_layout() {
    let mut w = GMBufferWriter::new(0);
    w.write_f64_typed_array(&[2.0f64.to_bits(), (-1.0f64).to_bits()]);
    let mut expected = vec![250u8, 2, 0, 9];
    expected.extend_from_slice(&2.0f64.to_le_bytes());
    expected.extend_from_slice(&(-1.0f64).to_le_bytes());
    assert_eq!(w.data, expected);
}

#[test]
fn reader_reads_type_and_string() {
    let bytes = [11u8, b'a', b'b', 0, 3];
    let mut r = GMBufferReader::new(&bytes);
    assert_eq!(r.read_type(), Some(GMType::String));
    assert_eq!(r.read_string(), Some("ab"));
    assert_eq!(r.cursor, 4);
    assert_eq!(r.read_type(), Some(GMType::U16));
    assert_eq!(r.read_type(), None);
}

#[test]
fn read_string_without_nul_consumes_nothing() {
    let bytes = [b'a', b'b'];
    let mut r = GMBufferReader::new(&bytes);
    assert_eq!(r.read_string(), None);
    assert_eq!(r.cursor, 0);
    let bad = [0xFFu8, 0];
    let mut r2 = GMBufferReader::new(&bad);
    assert_eq!(r2.read_string(), None);
    assert_eq!(r2.cursor, 0);
}

#[test]
fn unknown_tag_reads_nothing() {
    assert!(unpack(&[13]).is_none());
    assert!(unpack(&[]).is_none());
}

#[test]
fn unpack_scalars() {
    assert!(matches!(unpack(&[1, 200]), Some(GMValue::U8(200))));
    assert!(matches!(unpack(&[2, 0xFF]), Some(GMValue::I8(-1))));
    assert!(matches!(unpack(&[3, 0x34, 0x12]), Some(GMValue::U16(0x1234))));
    assert!(matches!(unpack(&[4, 0xFE, 0xFF]), Some(GMValue::I16(-2))));
    assert!(matches!(unpack(&[5, 1, 0, 0, 0]), Some(GMValue::U32(1))));
    assert!(matches!(unpack(&[6, 0xFF, 0xFF, 0xFF, 0xFF]), Some(GMValue::I32(-1))));
    assert!(matches!(unpack(&[12, 1, 0, 0, 0, 0, 0, 0, 1]), Some(GMValue::U64(0x0100_0000_0000_0001))));
    assert!(matches!(unpack(&[10, 2]), Some(GMValue::Bool(true))));
    assert!(matches!(unpack(&[10, 0]), Some(GMValue::Bool(false))));
    assert!(matches!(unpack(&[251]), Some(GMValue::Undefined)));
    assert!(matches!(unpack(&[252, 8, 0, 0, 0, 0, 0, 0, 0]), Some(GMValue::Pointer(8))));
    let mut f = vec![8u8];
    f.extend_from_slice(&2.5f32.to_le_bytes());
    match unpack(&f) {
        Some(GMValue::F32(bits)) => assert_eq!(f32::from_bits(bits), 2.5),
        _ => panic!("expected f32"),
    }
}

#[test]
fn unpack_short_payload_fails() {
    assert!(unpack(&[5, 1, 0]).is_none());
    assert!(unpack(&[12, 1]).is_none());
    assert!(unpack(&[1]).is_none());
}

#[test]
fn unpack_unsupported_types_fail() {
    assert!(unpack(&[7, 0, 0]).is_none());
    assert!(unpack(&[249, 0, 0]).is_none());
}

#[test]
fn unpack_buffer_value() {
    let bytes = [253u8, 16, 0, 0, 0, 0x10, 0x20, 0, 0, 0, 0, 0, 0];
    match unpack(&bytes) {
        Some(GMValue::Buffer { length, address }) => {
            assert_eq!(length, 16);
            assert_eq!(address, 0x2010);
        }
        _ => panic!("expected buffer"),
    }
}

#[test]
fn unpack_nested_array() {
    let bytes = [254u8, 2, 0, 1, 5, 254, 1, 0, 10, 1];
    let mut r = GMBufferReader::new(&bytes);
    match r.unpack_value() {
        Some(GMValue::Array(items)) => {
            assert_eq!(items.len(), 2);
            assert!(matches!(items[0], GMValue::U8(5)));
            match &items[1] {
                GMValue::Array(inner) => {
                    assert_eq!(inner.len(), 1);
                    assert!(matches!(inner[0], GMValue::Bool(true)));
                }
                _ => panic!("expected inner array"),
            }
        }
        _ => panic!("expected array"),
    }
    assert_eq!(r.cursor, bytes.len());
}

#[test]
fn unpack_struct_keeps_last_value_per_key() {
    let bytes = [
        255u8, 3, 0, b'a', 0, 1, 1, b'b', 0, 1, 2, b'a', 0, 1, 3,
    ];
    match unpack(&bytes) {
        Some(GMValue::Struct(fields)) => {
            assert_eq!(fields.len(), 2);
            assert_eq!(fields[0].0, "a");
            assert!(matches!(fields[0].1, GMValue::U8(3)));
            assert_eq!(fields[1].0, "b");
            assert!(matches!(fields[1].1, GMValue::U8(2)));
        }
        _ => panic!("expected struct"),
    }
}

#[test]
fn unpack_typed_arrays() {
    let mut bytes = vec![250u8, 2, 0, 9];
    bytes.extend_from_slice(&1.0f64.to_le_bytes());
    bytes.extend_from_slice(&3.0f64.to_le_bytes());
    match unpack(&bytes) {
        Some(GMValue::Array(items)) => {
            assert_eq!(items.len(), 2);
            match items[1] {
                GMValue::F64(b) => assert_eq!(f64::from_bits(b), 3.0),
                _ => panic!("expected f64"),
            }
        }
        _ => panic!("expected array"),
    }
    let ints = [250u8, 1, 0, 6, 0xFE, 0xFF, 0xFF, 0xFF];
    match unpack(&ints) {
        Some(GMValue::Array(items)) => assert!(matches!(items[0], GMValue::I32(-2))),
        _ => panic!("expected array"),
    }
    // An unknown element kind is refused, unless there is no element.
    assert!(unpack(&[250u8, 1, 0, 7, 0]).is_none());
    assert!(matches!(unpack(&[250u8, 0, 0, 7]), Some(GMValue::Array(v)) if v.is_empty()));
    // Too few bytes for the counted elements.
    assert!(unpack(&[250u8, 1, 0, 9, 0, 0]).is_none());
}

#[test]
fn written_values_read_back() {
    let mut w = GMBufferWriter::new(0);
    w.write_u8(9);
    w.write_u32(123456);
    w.write_bool(true);
    w.write_string("hello");
    w.write_f64(0.25f64.to_bits());
    let mut r = GMBufferReader::new(&w.data);
    assert!(matches!(r.unpack_value(), Some(GMValue::U8(9))));
    assert!(matches!(r.unpack_value(), Some(GMValue::U32(123456))));
    assert!(matches!(r.unpack_value(), Some(GMValue::Bool(true))));
    assert!(matches!(r.unpack_value(), Some(GMValue::String("hello"))));
    match r.unpack_value() {
        Some(GMValue::F64(b)) => assert_eq!(f64::from_bits(b), 0.25),
        _ => panic!("expected f64"),
    }
    assert!(r.unpack_value().is_none());
}

fn stop_after_failure(bytes: &[u8]) -> usize {
    let mut r = GMBufferReader::new(bytes);
    assert!(r.unpack_value().is_none());
    r.cursor
}

#[test]
fn failed_reads_leave_the_cursor_after_the_whole_parts() {
    // Unknown tag: the tag byte is consumed.
    assert_eq!(stop_after_failure(&[13, 0, 0]), 1);
    // Short scalar: only the tag is consumed.
    assert_eq!(stop_after_failure(&[5, 1, 0]), 1);
    // Buffer whose length fits but whose address does not.
    assert_eq!(stop_after_failure(&[253, 4, 0, 0, 0, 1, 2]), 5);
    // Typed array of three f64 with room for one: stops after that one.
    assert_eq!(stop_after_failure(&[250, 3, 0, 9, 0, 0, 0, 0, 0, 0, 0, 0, 1, 2]), 12);
    // Typed array of an unknown element kind: stops after the header.
    assert_eq!(stop_after_failure(&[250, 1, 0, 7, 0]), 4);
    // Array whose second item is cut short: stops after that item's tag.
    assert_eq!(stop_after_failure(&[254, 2, 0, 1, 5, 5, 1]), 6);
    // Struct whose key has no NUL: stops before the key.
    assert_eq!(stop_after_failure(&[255, 1, 0, b'a', b'b']), 3);
}

#[test]
fn written_array_and_struct_read_back() {
    let mut w = GMBufferWriter::new(0);
    w.write_array(2, |w| {
        w.write_u32(7);
        w.write_string("x");
    });
    w.write_struct(2, |w| {
        w.data.extend_from_slice(b"b\0");
        w.write_bool(true);
        w.data.extend_from_slice(b"a\0");
        w.write_u8(4);
    });
    let mut r = GMBufferReader::new(&w.data);
    match r.unpack_value() {
        Some(GMValue::Array(items)) => {
            assert_eq!(items.len(), 2);
            assert!(matches!(items[0], GMValue::U32(7)));
            assert!(matches!(items[1], GMValue::String("x")));
        }
        _ => panic!("expected array"),
    }
    match r.unpack_value() {
        Some(GMValue::Struct(fields)) => {
            assert_eq!(fields.len(), 2);
            assert_eq!(fields[0].0, "b");
            assert!(matches!(fields[0].1, GMValue::Bool(true)));
            assert_eq!(fields[1].0, "a");
            assert!(matches!(fields[1].1, GMValue::U8(4)));
        }
        _ => panic!("expected struct"),
    }
    assert_eq!(r.cursor, w.data.len());
}
