use recode::{AppError, HexError, System};

fn words(alphabet: &[char], longest: usize) -> Vec<String> {
    let mut all = vec![String::new()];
    let mut last = vec![String::new()];
    for _ in 0..longest {
        let mut next = Vec::new();
        for word in &last {
            for c in alphabet {
                let mut longer = word.clone();
                longer.push(*c);
                next.push(longer);
            }
        }
        all.extend(next.iter().cloned());
        last = next;
    }
    all
}

fn delimits(c: char) -> bool {
    let text = format!("1{}2", c);
    matches!(System::Dec.decode(text), Ok(bytes) if bytes == vec![1, 2])
}

fn delimiters_agree(from: u32, to: u32) {
    for n in from..to {
        if let Some(c) = char::from_u32(n) {
            assert_eq!(delimits(c), c.is_whitespace() || c == ',', "character {:?}", c);
        }
    }
}

#[test]
fn delimiters_are_white_space_and_comma_below_0x4000() {
    delimiters_agree(0, 0x4000);
}

#[test]
fn delimiters_are_white_space_and_comma_in_the_rest_of_the_first_plane() {
    delimiters_agree(0x4000, 0x10000);
}

#[test]
fn delimiters_are_white_space_and_comma_in_the_second_and_third_plane() {
    delimiters_agree(0x10000, 0x30000);
}

#[test]
fn delimiters_are_white_space_and_comma_in_the_planes_up_to_the_eighth() {
    delimiters_agree(0x30000, 0x80000);
}

#[test]
fn delimiters_are_white_space_and_comma_in_the_planes_up_to_the_fourteenth() {
    delimiters_agree(0x80000, 0xE0000);
}

#[test]
fn delimiters_are_white_space_and_comma_in_the_last_planes() {
    delimiters_agree(0xE0000, 0x110000);
}

#[test]
fn tokens_are_read_as_std_reads_a_u8() {
    for word in words(&['+', '-', '0', '1', '2', '5', '6', '9', 'a'], 4) {
        let expected = u8::from_str_radix(&word, 10).ok().map(|b| vec![b]);
        let found = System::Dec.decode(word.clone()).ok();
        assert_eq!(found, expected, "token {:?}", word);
    }
}

#[test]
fn decimal_lists_are_read_as_std_splits_and_reads_them() {
    for word in words(&['1', '2', '5', '6', ',', ' ', '+'], 5) {
        let expected: Option<Vec<u8>> = word
            .split(|c: char| c.is_whitespace() || c == ',')
            .map(|token| u8::from_str_radix(token, 10).ok())
            .collect();
        let found = System::Dec.decode(word.clone()).ok();
        assert_eq!(found, expected, "text {:?}", word);
    }
}

fn reported(detail: HexError) -> hex::FromHexError {
    match detail {
        HexError::InvalidHexCharacter { c, index } => {
            hex::FromHexError::InvalidHexCharacter { c, index }
        }
        HexError::OddLength => hex::FromHexError::OddLength,
        HexError::InvalidStringLength => hex::FromHexError::InvalidStringLength,
    }
}

#[test]
fn markers_are_removed_as_std_replaces_them() {
    for word in words(&['0', 'x', 'a', 'G'], 7) {
        let expected = hex::decode(word.replace("0x", ""));
        match System::Hex.decode(word.clone()) {
            Ok(bytes) => assert_eq!(Ok(bytes), expected, "text {:?}", word),
            Err(AppError::HexDecode(detail)) => {
                assert_eq!(Err(reported(detail)), expected, "text {:?}", word)
            }
            Err(other) => panic!("text {:?} gave {:?}", word, other),
        }
    }
}

#[test]
fn ascii_and_utf8_agree_with_std() {
    for a in [0u8, 0x41, 0x7F, 0x80, 0xBF, 0xC2, 0xE0, 0xED, 0xF0, 0xF4, 0xFF] {
        for b in [0u8, 0x41, 0x7F, 0x80, 0x8F, 0x90, 0x9F, 0xA0, 0xBF, 0xC2, 0xFF] {
            for c in [0x41u8, 0x80, 0xBF, 0xFF] {
                let bytes = [a, b, c, 0x80];
                for len in 0..=4 {
                    let part = &bytes[..len];
                    let expected = std::str::from_utf8(part).ok().map(|s| s.to_string());
                    assert_eq!(System::Utf8.encode(part).ok(), expected, "bytes {:?}", part);
                    let plain = if part.is_ascii() { expected.clone() } else { None };
                    assert_eq!(System::Ascii.encode(part).ok(), plain, "bytes {:?}", part);
                }
            }
        }
    }
}

fn sequences(alphabet: &[u8], longest: usize) -> Vec<Vec<u8>> {
    let mut all = vec![Vec::new()];
    let mut last = vec![Vec::new()];
    for _ in 0..longest {
        let mut next = Vec::new();
        for bytes in &last {
            for b in alphabet {
                let mut longer = bytes.clone();
                longer.push(*b);
                next.push(longer);
            }
        }
        all.extend(next.iter().cloned());
        last = next;
    }
    all
}

#[test]
fn groups_are_written_as_std_chunks_and_joins_them() {
    for bytes in sequences(&[0x41, 0x7F, 0xC3, 0xA9], 5) {
        for system in [System::Ascii, System::Utf8, System::Hex, System::Dec] {
            for grouping in 1..=6 {
                let expected: Option<String> = bytes
                    .chunks(grouping)
                    .map(|group| system.encode(group).ok())
                    .collect::<Option<Vec<String>>>()
                    .map(|texts| texts.join(", "));
                let found = system.interleave(&bytes, ", ".to_string(), grouping).ok();
                assert_eq!(found, expected, "bytes {:?} in groups of {}", bytes, grouping);
            }
        }
    }
}
