use rmpv::utf8::utf8_validate;

#[test]
fn ascii_is_valid() {
    assert_eq!(utf8_validate(b"hello"), None);
    assert_eq!(utf8_validate(b""), None);
}

#[test]
fn multibyte_sequences_are_valid() {
    assert_eq!(utf8_validate("héllo".as_bytes()), None);
    assert_eq!(utf8_validate("\u{0800}\u{ffff}".as_bytes()), None);
    assert_eq!(utf8_validate("\u{10000}\u{10ffff}".as_bytes()), None);
}

#[test]
fn stray_continuation_byte_is_invalid_at_its_offset() {
    assert_eq!(utf8_validate(&[0x80]), Some(0));
    assert_eq!(utf8_validate(&[b'a', 0xff, b'b']), Some(1));
}

#[test]
fn truncated_sequence_is_invalid_at_its_start() {
    assert_eq!(utf8_validate(&[b'a', 0xc3]), Some(1));
    assert_eq!(utf8_validate(&[0xe2, 0x82]), Some(0));
    assert_eq!(utf8_validate(&[0xf0, 0x9f, 0x98]), Some(0));
}

#[test]
fn overlong_and_surrogate_forms_are_invalid() {
    assert_eq!(utf8_validate(&[0xc0, 0xaf]), Some(0));
    assert_eq!(utf8_validate(&[0xc1, 0xbf]), Some(0));
    assert_eq!(utf8_validate(&[0xe0, 0x9f, 0xbf]), Some(0));
    assert_eq!(utf8_validate(&[0xed, 0xa0, 0x80]), Some(0));
    assert_eq!(utf8_validate(&[0xf0, 0x8f, 0xbf, 0xbf]), Some(0));
    assert_eq!(utf8_validate(&[0xf4, 0x90, 0x80, 0x80]), Some(0));
}

#[test]
fn validation_agrees_with_std_on_all_two_byte_inputs() {
    for a in 0..=0xffu8 {
        for b in 0..=0xffu8 {
            let bytes = [a, b];
            let expected = match std::str::from_utf8(&bytes) {
                Ok(_) => None,
                Err(e) => Some(e.valid_up_to()),
            };
            assert_eq!(utf8_validate(&bytes), expected);
        }
    }
}
