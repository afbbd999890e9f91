use recode::System;

fn samples() -> Vec<Vec<u8>> {
    vec![
        vec![],
        vec![0],
        vec![127],
        vec![0x30, 0x78],
        vec![72, 101, 108, 108, 111],
        (0..=127u8).collect(),
    ]
}

#[test]
fn ascii_round_trip() {
    for bytes in samples() {
        let text = System::Ascii.encode(&bytes).unwrap();
        assert_eq!(System::Ascii.decode(text).unwrap(), bytes);
    }
}

#[test]
fn utf8_round_trip() {
    let mut all = samples();
    all.push("gr\u{fc}\u{df}e \u{20ac} \u{1d11e}".as_bytes().to_vec());
    all.push("\u{7ff}\u{800}\u{ffff}\u{10000}\u{10ffff}".as_bytes().to_vec());
    for bytes in all {
        let text = System::Utf8.encode(&bytes).unwrap();
        assert_eq!(System::Utf8.decode(text).unwrap(), bytes);
    }
}

#[test]
fn hex_round_trip() {
    let mut all = samples();
    all.push((0..=255u8).collect());
    all.push(vec![0x0A, 0xB0, 0xFF, 0x00]);
    for bytes in all {
        let text = System::Hex.encode(&bytes).unwrap();
        assert_eq!(System::Hex.decode(text).unwrap(), bytes);
    }
}

#[test]
fn hex_round_trip_through_upper_case() {
    let bytes: Vec<u8> = (0..=255u8).collect();
    let text = System::Hex.encode(&bytes).unwrap().to_uppercase();
    assert_eq!(System::Hex.decode(text).unwrap(), bytes);
}

#[test]
fn hex_round_trip_with_a_marker_at_every_place() {
    let bytes = vec![0x00, 0x10, 0xAB, 0x0F, 0xF0];
    let text = System::Hex.encode(&bytes).unwrap();
    for at in 0..=text.len() {
        let marked = format!("{}0x{}", &text[..at], &text[at..]);
        assert_eq!(System::Hex.decode(marked).unwrap(), bytes);
    }
}

#[test]
fn dec_round_trip_of_a_single_byte() {
    for b in 0..=255u8 {
        let text = System::Dec.encode(&[b]).unwrap();
        assert_eq!(System::Dec.decode(text).unwrap(), vec![b]);
    }
}

#[test]
fn dec_text_of_several_bytes_is_read_as_one_number() {
    let text = System::Dec.encode(&[1, 2]).unwrap();
    assert_eq!(System::Dec.decode(text).unwrap(), vec![12]);
    let text = System::Dec.encode(&[100, 200]).unwrap();
    assert!(System::Dec.decode(text).is_err());
    let text = System::Dec.encode(&[]).unwrap();
    assert!(System::Dec.decode(text).is_err());
}

#[test]
fn dec_round_trip_through_groups_of_one() {
    let bytes: Vec<u8> = (0..=255u8).collect();
    for separator in [",", " ", "\n", "\t"] {
        let text = System::Dec.interleave(&bytes, separator.to_string(), 1).unwrap();
        assert_eq!(System::Dec.decode(text).unwrap(), bytes);
    }
}
