use recode::{AppError, HexError, System};

fn utf8_failure(bytes: &[u8]) -> std::str::Utf8Error {
    match System::Utf8.encode(bytes) {
        Err(AppError::Utf8Encode(detail)) => detail,
        other => panic!("expected a UTF-8 error, got {:?}", other),
    }
}

#[test]
fn encode_ascii_gives_one_character_per_byte() {
    assert_eq!(System::Ascii.encode(&[72, 105, 33]).unwrap(), "Hi!");
    assert_eq!(System::Ascii.encode(&[0, 9, 10]).unwrap(), "\u{0}\t\n");
    assert_eq!(System::Ascii.encode(&[]).unwrap(), "");
}

#[test]
fn encode_ascii_accepts_127() {
    assert_eq!(System::Ascii.encode(&[127]).unwrap(), "\u{7f}");
}

#[test]
fn encode_ascii_refuses_128() {
    assert!(matches!(System::Ascii.encode(&[128]), Err(AppError::AsciiEncode)));
    assert!(matches!(System::Ascii.encode(&[65, 66, 255]), Err(AppError::AsciiEncode)));
    assert!(matches!(System::Ascii.encode(&[0xC3, 0xA9]), Err(AppError::AsciiEncode)));
}

#[test]
fn encode_utf8_gives_the_encoded_text() {
    assert_eq!(System::Utf8.encode(&[0x41]).unwrap(), "A");
    assert_eq!(System::Utf8.encode(&[0xC3, 0xA9]).unwrap(), "\u{e9}");
    assert_eq!(System::Utf8.encode(&[0xE2, 0x82, 0xAC]).unwrap(), "\u{20ac}");
    assert_eq!(System::Utf8.encode(&[0xF0, 0x9D, 0x84, 0x9E]).unwrap(), "\u{1d11e}");
    assert_eq!(System::Utf8.encode(&[0xF4, 0x8F, 0xBF, 0xBF]).unwrap(), "\u{10ffff}");
    assert_eq!(System::Utf8.encode(&[0xED, 0x9F, 0xBF]).unwrap(), "\u{d7ff}");
    assert_eq!(System::Utf8.encode(&[]).unwrap(), "");
}

#[test]
fn encode_utf8_refuses_malformed_bytes() {
    assert_eq!(utf8_failure(&[0xFF]).valid_up_to(), 0);
    assert_eq!(utf8_failure(&[0x80]).valid_up_to(), 0);
    assert_eq!(utf8_failure(&[0x41, 0xC3]).valid_up_to(), 1);
    assert_eq!(utf8_failure(&[0x41, 0xC3]).error_len(), None);
    assert_eq!(utf8_failure(&[0x41, 0x42, 0xC3, 0x41]).valid_up_to(), 2);
    assert_eq!(utf8_failure(&[0xC3, 0xA9, 0xE2, 0x82]).valid_up_to(), 2);
}

#[test]
fn encode_utf8_refuses_overlong_and_surrogate_forms() {
    assert!(matches!(System::Utf8.encode(&[0xC0, 0x80]), Err(AppError::Utf8Encode(_))));
    assert!(matches!(System::Utf8.encode(&[0xC1, 0xBF]), Err(AppError::Utf8Encode(_))));
    assert!(matches!(System::Utf8.encode(&[0xE0, 0x9F, 0xBF]), Err(AppError::Utf8Encode(_))));
    assert!(matches!(System::Utf8.encode(&[0xED, 0xA0, 0x80]), Err(AppError::Utf8Encode(_))));
    assert!(matches!(System::Utf8.encode(&[0xF0, 0x8F, 0xBF, 0xBF]), Err(AppError::Utf8Encode(_))));
    assert!(matches!(System::Utf8.encode(&[0xF4, 0x90, 0x80, 0x80]), Err(AppError::Utf8Encode(_))));
    assert!(matches!(System::Utf8.encode(&[0xF5, 0x80, 0x80, 0x80]), Err(AppError::Utf8Encode(_))));
}

#[test]
fn encode_hex_gives_two_lower_case_digits_per_byte() {
    assert_eq!(System::Hex.encode(&[0x00, 0x0F, 0xA0, 0xFF]).unwrap(), "000fa0ff");
    assert_eq!(System::Hex.encode(&[0xAB, 0xCD, 0xEF]).unwrap(), "abcdef");
    assert_eq!(System::Hex.encode(&[1, 2, 3, 15, 16]).unwrap(), "0102030f10");
    assert_eq!(System::Hex.encode(&[]).unwrap(), "");
}

#[test]
fn encode_hex_of_every_byte() {
    for b in 0..=255u8 {
        assert_eq!(System::Hex.encode(&[b]).unwrap(), format!("{:02x}", b));
    }
}

#[test]
fn encode_dec_gives_the_numerals_without_a_gap() {
    assert_eq!(System::Dec.encode(&[1, 2, 3]).unwrap(), "123");
    assert_eq!(System::Dec.encode(&[0]).unwrap(), "0");
    assert_eq!(System::Dec.encode(&[10, 200, 255, 7]).unwrap(), "102002557");
    assert_eq!(System::Dec.encode(&[100, 0, 99]).unwrap(), "100099");
    assert_eq!(System::Dec.encode(&[]).unwrap(), "");
}

#[test]
fn encode_dec_of_every_byte() {
    for b in 0..=255u8 {
        assert_eq!(System::Dec.encode(&[b]).unwrap(), b.to_string());
    }
}

#[test]
fn errors_can_be_copied() {
    let first = System::Utf8.encode(&[0x41, 0xFF]).unwrap_err();
    let second = first.clone();
    match (first, second) {
        (AppError::Utf8Encode(a), AppError::Utf8Encode(b)) => assert_eq!(a, b),
        other => panic!("expected two UTF-8 errors, got {:?}", other),
    }
    assert!(matches!(AppError::AsciiEncode.clone(), AppError::AsciiEncode));
    assert!(matches!(AppError::ZeroGrouping.clone(), AppError::ZeroGrouping));
    let odd = System::Hex.decode("abc".to_string()).unwrap_err().clone();
    assert!(matches!(odd, AppError::HexDecode(HexError::OddLength)));
}

#[test]
fn systems_are_ordered_as_declared() {
    assert!(System::Ascii < System::Utf8);
    assert!(System::Utf8 < System::Hex);
    assert!(System::Hex < System::Dec);
    assert_eq!(System::Hex, System::Hex);
    assert_ne!(System::Hex, System::Dec);
}
