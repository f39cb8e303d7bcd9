use fuzzyrs::unicode::{
    code_point_at, next_code_point, unwrap_or_0, utf8_acc_cont_byte, utf8_first_byte, CodePoint,
    CONT_MASK,
};

#[test]
fn empty_input_has_no_code_point() {
    assert_eq!(next_code_point(b""), None);
}

#[test]
fn ascii_is_one_byte() {
    assert_eq!(next_code_point(b"A"), Some(CodePoint { value: 0x41, width: 1 }));
    assert_eq!(next_code_point(b"\x00"), Some(CodePoint { value: 0, width: 1 }));
    assert_eq!(next_code_point(b"\x7fzz"), Some(CodePoint { value: 0x7f, width: 1 }));
}

#[test]
fn well_formed_sequences_decode_to_their_scalar() {
    assert_eq!(next_code_point("é".as_bytes()), Some(CodePoint { value: 0xE9, width: 2 }));
    assert_eq!(next_code_point("€".as_bytes()), Some(CodePoint { value: 0x20AC, width: 3 }));
    assert_eq!(next_code_point("😀".as_bytes()), Some(CodePoint { value: 0x1F600, width: 4 }));
    assert_eq!(next_code_point("\u{7ff}".as_bytes()), Some(CodePoint { value: 0x7FF, width: 2 }));
    assert_eq!(next_code_point("\u{ffff}".as_bytes()), Some(CodePoint { value: 0xFFFF, width: 3 }));
    assert_eq!(next_code_point("\u{10ffff}".as_bytes()), Some(CodePoint { value: 0x10FFFF, width: 4 }));
}

#[test]
fn missing_continuation_bytes_count_as_zero() {
    assert_eq!(next_code_point(b"\xc3"), Some(CodePoint { value: 0xC0, width: 2 }));
    assert_eq!(next_code_point(b"\xe2"), Some(CodePoint { value: 0x2000, width: 3 }));
    assert_eq!(next_code_point(b"\xe2\x82"), Some(CodePoint { value: 0x2080, width: 3 }));
    assert_eq!(next_code_point(b"\xf0\x9f"), Some(CodePoint { value: 0x1F000, width: 4 }));
    assert_eq!(next_code_point(b"\xf0\x9f\x98"), Some(CodePoint { value: 0x1F600, width: 4 }));
}

#[test]
fn malformed_sequences_are_not_rejected() {
    assert_eq!(next_code_point(b"\xd8\x3fC"), Some(CodePoint { value: 0x63F, width: 2 }));
    assert_eq!(next_code_point(b"\x80A"), Some(CodePoint { value: 0x01, width: 2 }));
    assert_eq!(next_code_point(b"\xc1\x81"), Some(CodePoint { value: 0x41, width: 2 }));
    assert_eq!(next_code_point(b"\xed\xa0\x80"), Some(CodePoint { value: 0xD800, width: 3 }));
    assert_eq!(next_code_point(b"\xff\xff\xff\xff"), Some(CodePoint { value: 0x1FFFFF, width: 4 }));
}

#[test]
fn code_points_are_read_where_asked() {
    let bytes = "aé€😀".as_bytes();
    assert_eq!(code_point_at(bytes, 0), CodePoint { value: 0x61, width: 1 });
    assert_eq!(code_point_at(bytes, 1), CodePoint { value: 0xE9, width: 2 });
    assert_eq!(code_point_at(bytes, 3), CodePoint { value: 0x20AC, width: 3 });
    assert_eq!(code_point_at(bytes, 6), CodePoint { value: 0x1F600, width: 4 });
    // In the middle of a sequence the continuation byte is taken for a leading byte.
    assert_eq!(code_point_at(bytes, 2), CodePoint { value: (0x09 << 6) | 0x22, width: 2 });
    assert_eq!(code_point_at(bytes, 9), CodePoint { value: 0, width: 2 });
}

#[test]
fn leading_byte_bits() {
    assert_eq!(utf8_first_byte(0xC3, 2), 0x03);
    assert_eq!(utf8_first_byte(0xE2, 3), 0x02);
    assert_eq!(utf8_first_byte(0xF0, 4), 0x00);
    assert_eq!(utf8_first_byte(0xFF, 2), 0x1F);
    assert_eq!(utf8_first_byte(0xFF, 0), 0x7F);
    assert_eq!(utf8_first_byte(0xFF, 7), 0x00);
}

#[test]
fn continuation_byte_bits() {
    assert_eq!(CONT_MASK, 0x3F);
    assert_eq!(utf8_acc_cont_byte(0x03, 0xA9), 0xE9);
    assert_eq!(utf8_acc_cont_byte(0, 0xFF), 0x3F);
    assert_eq!(utf8_acc_cont_byte(1, 0), 0x40);
    assert_eq!(utf8_acc_cont_byte(0xFFFF_FFFF, 0), 0xFFFF_FFC0);
}

#[test]
fn missing_byte_is_zero() {
    let byte: u8 = 7;
    assert_eq!(unwrap_or_0(Some(&byte)), 7);
    assert_eq!(unwrap_or_0(None), 0);
}

#[test]
fn characters_of_a_string() {
    assert_eq!(fuzzyrs::chars::to_chars(""), Vec::<char>::new());
    assert_eq!(fuzzyrs::chars::to_chars("aé€😀"), vec!['a', 'é', '€', '😀']);
}
