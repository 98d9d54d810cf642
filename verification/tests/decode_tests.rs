use rmpv::decode::{
    read_array_data, read_bin_data, read_map_data, read_str_data, read_value, Error, ReadErrorKind,
};
use rmpv::value::{Utf8String, Value};

fn text(bytes: &[u8], invalid_at: Option<usize>) -> Value {
    Value::Text(Utf8String { bytes: bytes.to_vec(), invalid_at })
}

#[test]
fn nil_decodes() {
    assert_eq!(read_value(&[0xc0], 0), Ok((Value::Nil, 1)));
}

#[test]
fn booleans_decode() {
    assert_eq!(read_value(&[0xc2], 0), Ok((Value::Boolean(false), 1)));
    assert_eq!(read_value(&[0xc3], 0), Ok((Value::Boolean(true), 1)));
}

#[test]
fn every_inline_nonnegative_int_decodes() {
    for b in 0x00..=0x7fu8 {
        assert_eq!(read_value(&[b], 0), Ok((Value::UnsignedInt(b as u64), 1)));
    }
}

#[test]
fn every_inline_negative_int_decodes() {
    for b in 0xe0..=0xffu8 {
        let expected = (b as i8) as i64;
        assert!((-32..=-1).contains(&expected));
        assert_eq!(read_value(&[b], 0), Ok((Value::SignedInt(expected), 1)));
    }
}

#[test]
fn unsigned_scalars_decode() {
    assert_eq!(read_value(&[0xcc, 0xff], 0), Ok((Value::UnsignedInt(255), 2)));
    assert_eq!(read_value(&[0xcd, 0x12, 0x34], 0), Ok((Value::UnsignedInt(0x1234), 3)));
    assert_eq!(
        read_value(&[0xce, 0x12, 0x34, 0x56, 0x78], 0),
        Ok((Value::UnsignedInt(0x12345678), 5))
    );
    assert_eq!(
        read_value(&[0xcf, 0xff, 0xff, 0xff, 0xff, 0xff, 0xff, 0xff, 0xff], 0),
        Ok((Value::UnsignedInt(u64::MAX), 9))
    );
}

#[test]
fn signed_scalars_decode() {
    assert_eq!(read_value(&[0xd0, 0x80], 0), Ok((Value::SignedInt(-128), 2)));
    assert_eq!(read_value(&[0xd0, 0x7f], 0), Ok((Value::SignedInt(127), 2)));
    assert_eq!(read_value(&[0xd1, 0xff, 0xfe], 0), Ok((Value::SignedInt(-2), 3)));
    assert_eq!(
        read_value(&[0xd2, 0x80, 0x00, 0x00, 0x00], 0),
        Ok((Value::SignedInt(i32::MIN as i64), 5))
    );
    assert_eq!(
        read_value(&[0xd3, 0xff, 0xff, 0xff, 0xff, 0xff, 0xff, 0xff, 0xff], 0),
        Ok((Value::SignedInt(-1), 9))
    );
    assert_eq!(
        read_value(&[0xd3, 0x80, 0x00, 0x00, 0x00, 0x00, 0x00, 0x00, 0x00], 0),
        Ok((Value::SignedInt(i64::MIN), 9))
    );
}

#[test]
fn floats_keep_their_bits() {
    let bits32 = 1.5f32.to_bits();
    let be = bits32.to_be_bytes();
    assert_eq!(
        read_value(&[0xca, be[0], be[1], be[2], be[3]], 0),
        Ok((Value::F32(bits32), 5))
    );
    let bits64 = (-0.25f64).to_bits();
    let b = bits64.to_be_bytes();
    assert_eq!(
        read_value(&[0xcb, b[0], b[1], b[2], b[3], b[4], b[5], b[6], b[7]], 0),
        Ok((Value::F64(bits64), 9))
    );
}

#[test]
fn fixstr_decodes() {
    assert_eq!(
        read_value(&[0xa3, b'a', b'b', b'c'], 0),
        Ok((text(b"abc", None), 4))
    );
}

#[test]
fn str8_str16_str32_decode() {
    assert_eq!(read_value(&[0xd9, 0x02, b'h', b'i'], 0), Ok((text(b"hi", None), 4)));
    assert_eq!(
        read_value(&[0xda, 0x00, 0x02, b'h', b'i'], 0),
        Ok((text(b"hi", None), 5))
    );
    assert_eq!(
        read_value(&[0xdb, 0x00, 0x00, 0x00, 0x02, b'h', b'i'], 0),
        Ok((text(b"hi", None), 7))
    );
}

#[test]
fn invalid_utf8_is_kept_not_rejected() {
    assert_eq!(read_value(&[0xa1, 0xff], 0), Ok((text(&[0xff], Some(0)), 2)));
}

#[test]
fn invalid_utf8_offset_is_the_first_bad_byte() {
    assert_eq!(
        read_value(&[0xa3, b'a', 0xff, b'b'], 0),
        Ok((text(&[b'a', 0xff, b'b'], Some(1)), 4))
    );
}

#[test]
fn empty_payloads_are_not_errors() {
    assert_eq!(read_value(&[0xa0], 0), Ok((text(b"", None), 1)));
    assert_eq!(read_value(&[0xc4, 0x00], 0), Ok((Value::Binary(vec![]), 2)));
    assert_eq!(read_value(&[0x90], 0), Ok((Value::Array(vec![]), 1)));
    assert_eq!(read_value(&[0x80], 0), Ok((Value::Mapping(vec![]), 1)));
}

#[test]
fn binary_decodes() {
    assert_eq!(
        read_value(&[0xc4, 0x03, 1, 2, 3], 0),
        Ok((Value::Binary(vec![1, 2, 3]), 5))
    );
    assert_eq!(
        read_value(&[0xc5, 0x00, 0x02, 9, 8], 0),
        Ok((Value::Binary(vec![9, 8]), 5))
    );
    assert_eq!(
        read_value(&[0xc6, 0x00, 0x00, 0x00, 0x01, 7], 0),
        Ok((Value::Binary(vec![7]), 6))
    );
}

#[test]
fn nested_array_decodes() {
    assert_eq!(
        read_value(&[0x92, 0xc0, 0x05], 0),
        Ok((Value::Array(vec![Value::Nil, Value::UnsignedInt(5)]), 3))
    );
}

#[test]
fn array16_and_array32_decode() {
    assert_eq!(
        read_value(&[0xdc, 0x00, 0x02, 0xc2, 0xc3], 0),
        Ok((Value::Array(vec![Value::Boolean(false), Value::Boolean(true)]), 5))
    );
    assert_eq!(
        read_value(&[0xdd, 0x00, 0x00, 0x00, 0x01, 0xc0], 0),
        Ok((Value::Array(vec![Value::Nil]), 6))
    );
}

#[test]
fn arrays_nest_recursively() {
    assert_eq!(
        read_value(&[0x91, 0x91, 0x01], 0),
        Ok((Value::Array(vec![Value::Array(vec![Value::UnsignedInt(1)])]), 3))
    );
}

#[test]
fn fixmap_decodes_in_order() {
    assert_eq!(
        read_value(&[0x82, 0xa1, b'b', 0x01, 0xa1, b'a', 0x02], 0),
        Ok((
            Value::Mapping(vec![
                (text(b"b", None), Value::UnsignedInt(1)),
                (text(b"a", None), Value::UnsignedInt(2)),
            ]),
            7
        ))
    );
}

#[test]
fn duplicate_map_keys_are_kept() {
    assert_eq!(
        read_value(&[0x82, 0xa1, b'k', 0x01, 0xa1, b'k', 0x02], 0),
        Ok((
            Value::Mapping(vec![
                (text(b"k", None), Value::UnsignedInt(1)),
                (text(b"k", None), Value::UnsignedInt(2)),
            ]),
            7
        ))
    );
}

#[test]
fn map16_and_map32_decode() {
    assert_eq!(
        read_value(&[0xde, 0x00, 0x01, 0x01, 0x02], 0),
        Ok((Value::Mapping(vec![(Value::UnsignedInt(1), Value::UnsignedInt(2))]), 5))
    );
    assert_eq!(
        read_value(&[0xdf, 0x00, 0x00, 0x00, 0x01, 0xc0, 0xc3], 0),
        Ok((Value::Mapping(vec![(Value::Nil, Value::Boolean(true))]), 7))
    );
}

#[test]
fn fixext1_decodes() {
    assert_eq!(
        read_value(&[0xd4, 0x01, 0x02], 0),
        Ok((Value::Ext(1, vec![0x02]), 3))
    );
}

#[test]
fn fixext_widths_decode() {
    assert_eq!(
        read_value(&[0xd5, 0x7f, 1, 2], 0),
        Ok((Value::Ext(127, vec![1, 2]), 4))
    );
    assert_eq!(
        read_value(&[0xd6, 0x80, 1, 2, 3, 4], 0),
        Ok((Value::Ext(-128, vec![1, 2, 3, 4]), 6))
    );
    assert_eq!(
        read_value(&[0xd7, 0x00, 1, 2, 3, 4, 5, 6, 7, 8], 0),
        Ok((Value::Ext(0, vec![1, 2, 3, 4, 5, 6, 7, 8]), 10))
    );
    let mut bytes = vec![0xd8, 0x05];
    bytes.extend(0..16u8);
    assert_eq!(
        read_value(&bytes, 0),
        Ok((Value::Ext(5, (0..16u8).collect()), 18))
    );
}

#[test]
fn prefixed_ext_decodes() {
    assert_eq!(
        read_value(&[0xc7, 0x03, 0xff, 1, 2, 3], 0),
        Ok((Value::Ext(-1, vec![1, 2, 3]), 6))
    );
    assert_eq!(
        read_value(&[0xc8, 0x00, 0x01, 0x2a, 9], 0),
        Ok((Value::Ext(42, vec![9]), 5))
    );
    assert_eq!(
        read_value(&[0xc9, 0x00, 0x00, 0x00, 0x00, 0x03], 0),
        Ok((Value::Ext(3, vec![]), 6))
    );
}

#[test]
fn reserved_marker_decodes_to_nil() {
    assert_eq!(read_value(&[0xc1], 0), Ok((Value::Nil, 1)));
    assert_eq!(read_value(&[0xc1, 0xff], 0), Ok((Value::Nil, 1)));
}

#[test]
fn empty_input_is_a_marker_read_error() {
    let r = read_value(&[], 0);
    assert_eq!(r, Err(Error::InvalidMarkerRead(ReadErrorKind::UnexpectedEof)));
    assert_eq!(r.unwrap_err().kind(), ReadErrorKind::UnexpectedEof);
}

#[test]
fn truncated_scalars_are_data_read_errors() {
    for bytes in [
        vec![0xcc],
        vec![0xcd, 0x01],
        vec![0xce, 0x01, 0x02, 0x03],
        vec![0xcf, 0, 0, 0, 0, 0, 0, 0],
        vec![0xd0],
        vec![0xd1, 0xff],
        vec![0xd2, 0, 0, 0],
        vec![0xd3, 0, 0, 0, 0, 0, 0, 0],
        vec![0xca, 0, 0, 0],
        vec![0xcb, 0, 0, 0, 0, 0, 0, 0],
    ] {
        assert_eq!(
            read_value(&bytes, 0),
            Err(Error::InvalidDataRead(ReadErrorKind::UnexpectedEof)),
        );
    }
}

#[test]
fn truncated_payloads_are_data_read_errors() {
    for bytes in [
        vec![0xa2, b'a'],
        vec![0xd9],
        vec![0xd9, 0x02, b'a'],
        vec![0xc4],
        vec![0xc4, 0x03, 1],
        vec![0xd4],
        vec![0xd4, 0x01],
        vec![0xc7, 0x01, 0x00],
        vec![0xdc, 0x00],
        vec![0xde, 0x00],
    ] {
        assert_eq!(
            read_value(&bytes, 0),
            Err(Error::InvalidDataRead(ReadErrorKind::UnexpectedEof)),
        );
    }
}

#[test]
fn truncated_array_fails_at_the_missing_element_marker() {
    assert_eq!(
        read_value(&[0x92, 0xc0], 0),
        Err(Error::InvalidMarkerRead(ReadErrorKind::UnexpectedEof))
    );
    assert_eq!(
        read_value(&[0x91, 0xcc], 0),
        Err(Error::InvalidDataRead(ReadErrorKind::UnexpectedEof))
    );
}

#[test]
fn no_partial_value_after_error() {
    let r = read_value(&[0xcd, 0x01], 0);
    assert!(r.is_err());
}

#[test]
fn trailing_bytes_are_left_alone() {
    assert_eq!(read_value(&[0x05, 0xff, 0xff], 0), Ok((Value::UnsignedInt(5), 1)));
}

#[test]
fn decoding_starts_at_the_given_position() {
    assert_eq!(read_value(&[0xff, 0xcc, 0x2a], 1), Ok((Value::UnsignedInt(42), 3)));
}

#[test]
fn error_kind_reports_the_classification() {
    let marker_err = Error::InvalidMarkerRead(ReadErrorKind::Other);
    assert_eq!(marker_err.kind(), ReadErrorKind::Other);
    let data_err = Error::InvalidDataRead(ReadErrorKind::UnexpectedEof);
    assert_eq!(data_err.kind(), ReadErrorKind::UnexpectedEof);
}

#[test]
fn error_description_names_the_phase() {
    assert_eq!(
        Error::InvalidMarkerRead(ReadErrorKind::UnexpectedEof).description(),
        "I/O error while reading marker byte"
    );
    assert_eq!(
        Error::InvalidDataRead(ReadErrorKind::UnexpectedEof).description(),
        "I/O error while reading non-marker bytes"
    );
}

#[test]
fn read_array_data_reads_count_elements() {
    let buf = [0xc0, 0x01, 0x02, 0xc3];
    assert_eq!(
        read_array_data(&buf, 1, 2),
        Ok((vec![Value::UnsignedInt(1), Value::UnsignedInt(2)], 3))
    );
    assert_eq!(
        read_array_data(&buf, 3, 2),
        Err(Error::InvalidMarkerRead(ReadErrorKind::UnexpectedEof))
    );
}

#[test]
fn read_map_data_reads_pair_count_entries() {
    let buf = [0x01, 0x02, 0x03, 0x04];
    assert_eq!(
        read_map_data(&buf, 0, 2),
        Ok((
            vec![
                (Value::UnsignedInt(1), Value::UnsignedInt(2)),
                (Value::UnsignedInt(3), Value::UnsignedInt(4)),
            ],
            4
        ))
    );
}

#[test]
fn read_str_data_validates_utf8() {
    let buf = [b'h', b'i', 0xff];
    assert_eq!(
        read_str_data(&buf, 0, 2),
        Ok((Utf8String { bytes: b"hi".to_vec(), invalid_at: None }, 2))
    );
    assert_eq!(
        read_str_data(&buf, 0, 3),
        Ok((Utf8String { bytes: vec![b'h', b'i', 0xff], invalid_at: Some(2) }, 3))
    );
}

#[test]
fn read_bin_data_reads_exactly() {
    let buf = [9u8, 1, 2, 3, 4];
    assert_eq!(read_bin_data(&buf, 1, 3), Ok((vec![1, 2, 3], 4)));
    assert_eq!(
        read_bin_data(&buf, 3, 3),
        Err(Error::InvalidDataRead(ReadErrorKind::UnexpectedEof))
    );
}
