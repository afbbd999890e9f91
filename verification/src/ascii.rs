//! ASCII notation: one character for each byte, none above 127.

use crate::unicode::{lemma_char_encoding, lemma_char_numbers, utf8_string};
use vstd::pervasive::unreached;
use vstd::prelude::*;
use vstd::utf8::*;

verus! {

/// Whether no byte is above 127.
pub open spec fn is_ascii_bytes(bytes: Seq<u8>) -> bool {
    forall|i: int| 0 <= i < bytes.len() ==> #[trigger] bytes[i] <= 127
}

/// The text that holds, for each byte, the character of the same number.
pub open spec fn ascii_text(bytes: Seq<u8>) -> Seq<char> {
    Seq::new(bytes.len(), |i: int| bytes[i] as char)
}

/// The bytes that hold, for each character, its number.
pub open spec fn ascii_bytes(text: Seq<char>) -> Seq<u8> {
    Seq::new(text.len(), |i: int| text[i] as u8)
}

/// Bytes up to 127 are their own text in UTF-8.
pub proof fn lemma_ascii_bytes_are_utf8(bytes: Seq<u8>)
    requires
        is_ascii_bytes(bytes),
    ensures
        is_ascii_chars(ascii_text(bytes)),
        encode_utf8(ascii_text(bytes)) == bytes,
        valid_utf8(bytes),
        decode_utf8(bytes) == ascii_text(bytes),
        ascii_bytes(ascii_text(bytes)) == bytes,
{
    let text = ascii_text(bytes);
    assert forall|i: int| 0 <= i < text.len() implies '\0' <= #[trigger] text[i] <= '\u{7f}' by {
        assert(bytes[i] <= 127);
    }
    is_ascii_chars_encode_utf8(text);
    assert(encode_utf8(text) =~= bytes) by {
        assert forall|i: int| 0 <= i < bytes.len() implies encode_utf8(text)[i] == bytes[i] by {
            assert(text[i] as u8 == encode_utf8(text)[i]);
            assert(bytes[i] <= 127);
        }
    }
    encode_utf8_valid_utf8(text);
    encode_utf8_decode_utf8(text);
    assert(ascii_bytes(text) =~= bytes) by {
        assert forall|i: int| 0 <= i < bytes.len() implies ascii_bytes(text)[i] == bytes[i] by {
            assert(bytes[i] <= 127);
        }
    }
}

/// A text of characters up to 127 is encoded in UTF-8 by one byte for each.
pub proof fn lemma_ascii_chars_encoding(text: Seq<char>)
    requires
        is_ascii_chars(text),
    ensures
        encode_utf8(text) == ascii_bytes(text),
        is_ascii_bytes(ascii_bytes(text)),
        ascii_text(ascii_bytes(text)) == text,
{
    is_ascii_chars_encode_utf8(text);
    assert(encode_utf8(text) =~= ascii_bytes(text));
    assert forall|i: int| 0 <= i < text.len() implies #[trigger] ascii_bytes(text)[i] <= 127 by {
        assert('\0' <= text[i] <= '\u{7f}');
    }
    assert(ascii_text(ascii_bytes(text)) =~= text) by {
        assert forall|i: int| 0 <= i < text.len() implies ascii_text(ascii_bytes(text))[i]
            == text[i] by {
            assert('\0' <= text[i] <= '\u{7f}');
        }
    }
}

/// The encoding of a text with a character above 127 holds a byte above 127.
pub proof fn lemma_other_chars_encoding(text: Seq<char>)
    requires
        !is_ascii_chars(text),
    ensures
        !is_ascii_bytes(encode_utf8(text)),
    decreases text.len(),
{
    let i = choose|i: int| 0 <= i < text.len() && !('\0' <= #[trigger] text[i] <= '\u{7f}');
    let first = text[0] as u32;
    let rest = text.drop_first();
    let bytes = encode_utf8(text);
    lemma_char_numbers(text[0], '\u{7f}');
    lemma_char_numbers('\0', text[0]);
    lemma_char_encoding(text[0]);
    if first > 0x7f {
        assert(bytes[0] == encode_scalar(first)[0]);
    } else {
        assert('\0' <= text[0] <= '\u{7f}');
        assert(!('\0' <= rest[i - 1] <= '\u{7f}'));
        lemma_other_chars_encoding(rest);
        let j = choose|j: int|
            0 <= j < encode_utf8(rest).len() && !(#[trigger] encode_utf8(rest)[j] <= 127);
        assert(bytes[1 + j] == encode_utf8(rest)[j]);
    }
}

/// Tells whether no byte is above 127.
pub(crate) fn all_ascii(bytes: &[u8]) -> (b: bool)
    ensures
        b == is_ascii_bytes(bytes@),
{
    let mut i: usize = 0;
    while i < bytes.len()
        invariant
            i <= bytes.len(),
            forall|k: int| 0 <= k < i ==> #[trigger] bytes@[k] <= 127,
        decreases bytes.len() - i,
    {
        if bytes[i] > 127 {
            return false;
        }
        i = i + 1;
    }
    true
}

/// The text of bytes that are all up to 127.
pub(crate) fn ascii_string(bytes: &[u8]) -> (text: String)
    requires
        is_ascii_bytes(bytes@),
    ensures
        text@ == ascii_text(bytes@),
{
    proof {
        lemma_ascii_bytes_are_utf8(bytes@);
    }
    match utf8_string(bytes) {
        Ok(text) => text,
        Err(_) => unreached(),
    }
}

/// The bytes of a text, where all its characters are up to 127.
pub(crate) fn ascii_vec(text: &str) -> (res: Option<Vec<u8>>)
    ensures
        is_ascii_chars(text@) <==> res is Some,
        res matches Some(bytes) ==> bytes@ == ascii_bytes(text@),
{
    let bytes = text.as_bytes_vec();
    if all_ascii(bytes.as_slice()) {
        proof {
            if !is_ascii_chars(text@) {
                lemma_other_chars_encoding(text@);
            }
            lemma_ascii_chars_encoding(text@);
        }
        Some(bytes)
    } else {
        proof {
            if is_ascii_chars(text@) {
                lemma_ascii_chars_encoding(text@);
            }
        }
        None
    }
}

} // verus!
