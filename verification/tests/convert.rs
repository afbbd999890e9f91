use recode::{convert, AppError, HexError, System};

fn run(
    input: System,
    output: System,
    data: &str,
    grouping: Option<(&str, usize)>,
) -> Result<String, AppError> {
    convert(input, output, data.to_string(), grouping.map(|(s, n)| (s.to_string(), n)))
}

#[test]
fn convert_in_one_piece() {
    assert_eq!(run(System::Ascii, System::Hex, "Hello", None).unwrap(), "48656c6c6f");
    assert_eq!(run(System::Hex, System::Ascii, "0x48656C6C6F", None).unwrap(), "Hello");
    assert_eq!(run(System::Dec, System::Utf8, "195,169", None).unwrap(), "\u{e9}");
    assert_eq!(run(System::Utf8, System::Dec, "\u{e9}", None).unwrap(), "195169");
}

#[test]
fn convert_in_groups() {
    assert_eq!(run(System::Ascii, System::Hex, "Hello", Some((" ", 2))).unwrap(), "4865 6c6c 6f");
    assert_eq!(run(System::Hex, System::Dec, "0a0b0c", Some((", ", 1))).unwrap(), "10, 11, 12");
    assert_eq!(run(System::Utf8, System::Hex, "", Some((", ", 1))).unwrap(), "");
}

#[test]
fn convert_reports_the_error_of_reading_first() {
    assert!(matches!(run(System::Ascii, System::Hex, "\u{e9}", None), Err(AppError::AsciiDecode)));
    assert!(matches!(
        run(System::Hex, System::Ascii, "abc", Some((" ", 0))),
        Err(AppError::HexDecode(HexError::OddLength))
    ));
    assert!(matches!(run(System::Dec, System::Hex, "1,,2", None), Err(AppError::DecDecode)));
}

#[test]
fn convert_reports_the_error_of_writing() {
    assert!(matches!(run(System::Hex, System::Ascii, "ff", None), Err(AppError::AsciiEncode)));
    assert!(matches!(run(System::Hex, System::Utf8, "ff", None), Err(AppError::Utf8Encode(_))));
    assert!(matches!(
        run(System::Hex, System::Ascii, "41ff", Some((" ", 1))),
        Err(AppError::AsciiEncode)
    ));
    assert!(matches!(
        run(System::Hex, System::Ascii, "41ff", Some((" ", 0))),
        Err(AppError::ZeroGrouping)
    ));
    assert!(matches!(
        run(System::Hex, System::Hex, "", Some((" ", 0))),
        Err(AppError::ZeroGrouping)
    ));
}
