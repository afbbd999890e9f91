use recode::{AppError, System};

#[test]
fn interleave_hex_one_byte_per_group() {
    let text = System::Hex.interleave(&[0xAB, 0xCD, 0xEF], " ".to_string(), 1).unwrap();
    assert_eq!(text, "ab cd ef");
}

#[test]
fn interleave_hex_two_bytes_per_group() {
    let text = System::Hex.interleave(&[0xAB, 0xCD, 0xEF], "-".to_string(), 2).unwrap();
    assert_eq!(text, "abcd-ef");
}

#[test]
fn interleave_refuses_zero_grouping() {
    for system in [System::Ascii, System::Utf8, System::Hex, System::Dec] {
        let res = system.interleave(&[1, 2, 3], ",".to_string(), 0);
        assert!(matches!(res, Err(AppError::ZeroGrouping)));
        let res = system.interleave(&[], ",".to_string(), 0);
        assert!(matches!(res, Err(AppError::ZeroGrouping)));
        let res = system.interleave(&[200], String::new(), 0);
        assert!(matches!(res, Err(AppError::ZeroGrouping)));
    }
}

#[test]
fn interleave_of_no_bytes_is_empty() {
    for system in [System::Ascii, System::Utf8, System::Hex, System::Dec] {
        assert_eq!(system.interleave(&[], ", ".to_string(), 3).unwrap(), "");
    }
}

#[test]
fn interleave_with_one_group_is_encode() {
    let bytes = [0x48, 0x65, 0x6C, 0x6C, 0x6F];
    for system in [System::Ascii, System::Utf8, System::Hex, System::Dec] {
        let whole = system.encode(&bytes).unwrap();
        assert_eq!(system.interleave(&bytes, "|".to_string(), 5).unwrap(), whole);
        assert_eq!(system.interleave(&bytes, "|".to_string(), 6).unwrap(), whole);
        assert_eq!(system.interleave(&bytes, "|".to_string(), usize::MAX).unwrap(), whole);
    }
}

#[test]
fn interleave_puts_the_separator_between_groups_only() {
    let bytes = [1, 2, 3, 4, 5, 6];
    assert_eq!(System::Dec.interleave(&bytes, ", ".to_string(), 1).unwrap(), "1, 2, 3, 4, 5, 6");
    assert_eq!(System::Dec.interleave(&bytes, ", ".to_string(), 2).unwrap(), "12, 34, 56");
    assert_eq!(System::Dec.interleave(&bytes, ", ".to_string(), 3).unwrap(), "123, 456");
    assert_eq!(System::Dec.interleave(&bytes, ", ".to_string(), 4).unwrap(), "1234, 56");
    assert_eq!(System::Hex.interleave(&bytes, String::new(), 2).unwrap(), "010203040506");
    assert_eq!(System::Hex.interleave(&bytes, " 0x".to_string(), 4).unwrap(), "01020304 0x0506");
    assert_eq!(System::Ascii.interleave(b"abcdefg", "--".to_string(), 3).unwrap(), "abc--def--g");
}

#[test]
fn interleave_hands_on_the_first_error() {
    let res = System::Ascii.interleave(&[65, 200, 66], " ".to_string(), 1);
    assert!(matches!(res, Err(AppError::AsciiEncode)));
    let res = System::Ascii.interleave(&[65, 66, 67, 128], " ".to_string(), 3);
    assert!(matches!(res, Err(AppError::AsciiEncode)));
    match System::Utf8.interleave(&[0x41, 0x42, 0x41, 0xFF, 0xFF, 0x41], " ".to_string(), 2) {
        Err(AppError::Utf8Encode(detail)) => assert_eq!(detail.valid_up_to(), 1),
        other => panic!("expected a UTF-8 error, got {:?}", other),
    }
}

#[test]
fn interleave_encodes_each_group_by_itself() {
    let bytes = [0xC3, 0xA9, 0xC3, 0xA9];
    assert_eq!(System::Utf8.interleave(&bytes, " ".to_string(), 2).unwrap(), "\u{e9} \u{e9}");
    assert_eq!(System::Utf8.interleave(&bytes, " ".to_string(), 4).unwrap(), "\u{e9}\u{e9}");
    assert!(matches!(
        System::Utf8.interleave(&bytes, " ".to_string(), 1),
        Err(AppError::Utf8Encode(_))
    ));
    assert!(matches!(
        System::Utf8.interleave(&bytes, " ".to_string(), 3),
        Err(AppError::Utf8Encode(_))
    ));
}
