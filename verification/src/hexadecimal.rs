//! Hexadecimal notation: two digits per byte, the high half first.
//!
//! Writing and reading the digits is the work of the `hex` crate. This module
//! states what that crate does, and removes the `0x` markers that a text may
//! carry before it is read.

use crate::unicode::{lemma_char_encoding, lemma_char_numbers};
use vstd::prelude::*;
use vstd::utf8::*;

verus! {

/// Why a sequence of bytes is no hexadecimal text: what the error of the `hex`
/// crate holds, variant by variant.
#[derive(Copy, Clone, PartialEq, Eq, Debug, Structural)]
pub enum HexError {
    /// A byte that is no hexadecimal digit, as the character of the same
    /// number, and its position.
    InvalidHexCharacter { c: char, index: usize },
    /// An odd number of bytes, where two digits make a byte.
    OddLength,
    /// A number of digits that does not fit a container of fixed size. Reading
    /// into a vector never yields it.
    InvalidStringLength,
}

/// The number that the ASCII character `c` stands for as a hexadecimal digit,
/// in either case; `None` for every other byte.
pub open spec fn hex_digit_value(c: u8) -> Option<u8> {
    if 0x30 <= c <= 0x39 {
        Some((c - 0x30) as u8)
    } else if 0x61 <= c <= 0x66 {
        Some((c - 0x61 + 10) as u8)
    } else if 0x41 <= c <= 0x46 {
        Some((c - 0x41 + 10) as u8)
    } else {
        None
    }
}

/// Whether `c` is one of `0`-`9`, `a`-`f`, `A`-`F`.
pub open spec fn is_hex_digit(c: u8) -> bool {
    hex_digit_value(c) is Some
}

/// The position of the first byte of `data` that is no hexadecimal digit, or
/// the length of `data` where every byte is one.
pub open spec fn first_non_digit(data: Seq<u8>) -> nat
    decreases data.len(),
{
    if data.len() == 0 || !is_hex_digit(data[0]) {
        0
    } else {
        1 + first_non_digit(data.skip(1))
    }
}

/// The byte that two hexadecimal digits denote.
pub open spec fn pair_value(high: u8, low: u8) -> u8 {
    (16 * hex_digit_value(high).unwrap() + hex_digit_value(low).unwrap()) as u8
}

/// What a sequence of hexadecimal digits denotes.
///
/// A sequence of odd length denotes nothing, whatever it holds. In one of even
/// length every byte must be a digit, and the first that is not is reported
/// with its position. Otherwise each pair of digits gives one byte.
pub open spec fn hex_bytes(data: Seq<u8>) -> Result<Seq<u8>, HexError> {
    let at = first_non_digit(data) as int;
    if data.len() % 2 != 0 {
        Err(HexError::OddLength)
    } else if at < data.len() {
        Err(HexError::InvalidHexCharacter { c: data[at] as char, index: at as usize })
    } else {
        Ok(Seq::new(data.len() / 2, |k: int| pair_value(data[2 * k], data[2 * k + 1])))
    }
}

/// The lower-case hexadecimal digit for a number below 16.
pub open spec fn lower_hex_digit(n: u8) -> char {
    if n < 10 {
        (0x30 + n) as char
    } else {
        (0x61 + n - 10) as char
    }
}

/// The hexadecimal text of `bytes`: for each byte the digit of its high half,
/// then the digit of its low half.
pub open spec fn hex_text(bytes: Seq<u8>) -> Seq<char> {
    Seq::new(
        2 * bytes.len(),
        |i: int|
            lower_hex_digit(
                if i % 2 == 0 {
                    bytes[i / 2] / 16
                } else {
                    bytes[i / 2] % 16
                },
            ),
    )
}

/// Calls `hex::encode`, which writes each byte as two digits taken from the
/// table `0123456789abcdef`, the high half first, and nothing else.
#[verifier::external_body]
pub(crate) fn hex_encode(data: &[u8]) -> (text: String)
    ensures
        text@ == hex_text(data@),
{
    hex::encode(data)
}

/// Calls `hex::decode`, which refuses an input of odd length with `OddLength`,
/// then reads the bytes pair by pair from the left and stops at the first one
/// that is no digit, which it reports as a `char` of the same number together
/// with its position. It never returns `InvalidStringLength`. The error comes
/// back variant for variant, with its fields as they are.
#[verifier::external_body]
pub(crate) fn hex_decode(data: &[u8]) -> (res: Result<Vec<u8>, HexError>)
    ensures
        res matches Ok(bytes) ==> hex_bytes(data@) matches Ok(b) && b == bytes@,
        res matches Err(e) ==> hex_bytes(data@) matches Err(f) && f == e,
{
    match hex::decode(data) {
        Ok(bytes) => Ok(bytes),
        Err(hex::FromHexError::InvalidHexCharacter { c, index }) => {
            Err(HexError::InvalidHexCharacter { c, index })
        },
        Err(hex::FromHexError::OddLength) => Err(HexError::OddLength),
        Err(hex::FromHexError::InvalidStringLength) => Err(HexError::InvalidStringLength),
    }
}

/// `text` without its `0x` markers: reading from the left, every `0` that is
/// directly followed by `x` is left out together with that `x`, and the search
/// goes on behind the pair. What is left is not searched again.
pub open spec fn strip_marker(text: Seq<u8>) -> Seq<u8>
    decreases text.len(),
{
    if text.len() == 0 {
        text
    } else if text.len() >= 2 && text[0] == 0x30 && text[1] == 0x78 {
        strip_marker(text.skip(2))
    } else {
        seq![text[0]] + strip_marker(text.skip(1))
    }
}

/// The same on characters: `text` without its `0x` markers.
pub open spec fn strip_marker_text(text: Seq<char>) -> Seq<char>
    decreases text.len(),
{
    if text.len() == 0 {
        text
    } else if text.len() >= 2 && text[0] == '0' && text[1] == 'x' {
        strip_marker_text(text.skip(2))
    } else {
        seq![text[0]] + strip_marker_text(text.skip(1))
    }
}

/// Copies `text` without its `0x` markers.
pub(crate) fn remove_marker(text: &[u8]) -> (out: Vec<u8>)
    ensures
        out@ == strip_marker(text@),
{
    let mut out: Vec<u8> = Vec::new();
    let mut i: usize = 0;
    assert(text@.skip(0) =~= text@);
    assert(out@ + strip_marker(text@) =~= strip_marker(text@));
    while i < text.len()
        invariant
            i <= text.len(),
            strip_marker(text@) == out@ + strip_marker(text@.skip(i as int)),
        decreases text.len() - i,
    {
        let ghost rest = text@.skip(i as int);
        if text[i] == 0x30 && i + 1 < text.len() && text[i + 1] == 0x78 {
            assert(rest.skip(2) =~= text@.skip(i + 2));
            i = i + 2;
        } else {
            let ghost before = out@;
            assert(rest.skip(1) =~= text@.skip(i + 1));
            out.push(text[i]);
            assert(out@ + strip_marker(rest.skip(1)) =~= before + (seq![rest[0]] + strip_marker(
                rest.skip(1),
            )));
            i = i + 1;
        }
    }
    assert(out@ + strip_marker(text@.skip(i as int)) =~= out@);
    out
}

/// `c`, or its lower-case form where it is one of the letters `A` to `F`.
pub open spec fn lower_case(c: char) -> char {
    if 'A' <= c <= 'F' {
        (c as u32 + 0x20) as char
    } else {
        c
    }
}

/// `text` with its letters `A` to `F` in lower case.
pub open spec fn lower_text(text: Seq<char>) -> Seq<char> {
    Seq::new(text.len(), |i: int| lower_case(text[i]))
}

/// `b`, or the byte of the lower-case form where it stands for one of the
/// letters `A` to `F`.
pub open spec fn lower_byte(b: u8) -> u8 {
    if 0x41 <= b <= 0x46 {
        (b + 0x20) as u8
    } else {
        b
    }
}

/// `data` with the bytes of the letters `A` to `F` in lower case.
pub open spec fn lower_bytes(data: Seq<u8>) -> Seq<u8> {
    Seq::new(data.len(), |i: int| lower_byte(data[i]))
}

/// The first byte that is no digit lies within the sequence, or is its end.
pub proof fn lemma_first_non_digit_bound(data: Seq<u8>)
    ensures
        first_non_digit(data) <= data.len(),
        first_non_digit(data) < data.len() ==> !is_hex_digit(data[first_non_digit(data) as int]),
        forall|i: int| 0 <= i < first_non_digit(data) ==> is_hex_digit(#[trigger] data[i]),
    decreases data.len(),
{
    if data.len() > 0 && is_hex_digit(data[0]) {
        let rest = data.skip(1);
        lemma_first_non_digit_bound(rest);
        assert forall|i: int| 0 <= i < first_non_digit(data) implies is_hex_digit(
            #[trigger] data[i],
        ) by {
            if i > 0 {
                assert(data[i] == rest[i - 1]);
            }
        }
    }
}

/// In a sequence of digits the first byte that is none is its end.
pub proof fn lemma_all_hex_digits(data: Seq<u8>)
    requires
        forall|i: int| 0 <= i < data.len() ==> is_hex_digit(#[trigger] data[i]),
    ensures
        first_non_digit(data) == data.len(),
    decreases data.len(),
{
    if data.len() > 0 {
        let rest = data.skip(1);
        assert(is_hex_digit(data[0]));
        assert forall|i: int| 0 <= i < rest.len() implies is_hex_digit(#[trigger] rest[i]) by {
            assert(rest[i] == data[i + 1]);
        }
        lemma_all_hex_digits(rest);
    }
}

/// A sequence without the byte `x` holds no marker.
pub proof fn lemma_strip_without_x(text: Seq<u8>)
    requires
        forall|i: int| 0 <= i < text.len() ==> #[trigger] text[i] != 0x78,
    ensures
        strip_marker(text) == text,
    decreases text.len(),
{
    if text.len() > 0 {
        if text.len() >= 2 {
            assert(text[1] != 0x78);
        }
        let rest = text.skip(1);
        assert forall|i: int| 0 <= i < rest.len() implies #[trigger] rest[i] != 0x78 by {
            assert(rest[i] == text[i + 1]);
        }
        lemma_strip_without_x(rest);
        assert(seq![text[0]] + rest =~= text);
    }
}

/// Markers are looked for in a text part by part, as long as the second part
/// does not begin with an `x` that could close a marker.
pub proof fn lemma_strip_concat(head: Seq<u8>, tail: Seq<u8>)
    requires
        tail.len() > 0 ==> tail[0] != 0x78,
    ensures
        strip_marker(head + tail) == strip_marker(head) + strip_marker(tail),
    decreases head.len(),
{
    let whole = head + tail;
    if head.len() == 0 {
        assert(whole =~= tail);
        assert(strip_marker(head) + strip_marker(tail) =~= strip_marker(tail));
    } else if head.len() >= 2 && head[0] == 0x30 && head[1] == 0x78 {
        assert(whole[0] == head[0] && whole[1] == head[1]);
        assert(whole.skip(2) =~= head.skip(2) + tail);
        lemma_strip_concat(head.skip(2), tail);
    } else {
        assert(whole[0] == head[0]);
        if whole.len() >= 2 {
            if head.len() >= 2 {
                assert(whole[1] == head[1]);
            } else {
                assert(whole[1] == tail[0]);
            }
        }
        assert(whole.skip(1) =~= head.skip(1) + tail);
        lemma_strip_concat(head.skip(1), tail);
        assert(strip_marker(whole) =~= strip_marker(head) + strip_marker(tail));
    }
}

/// Bytes in which no marker begins stay as they are, whatever follows them.
pub proof fn lemma_strip_keeps(head: Seq<u8>, tail: Seq<u8>)
    requires
        forall|i: int|
            0 <= i < head.len() ==> !(#[trigger] (head + tail)[i] == 0x30 && i + 1 < (head
                + tail).len() && (head + tail)[i + 1] == 0x78),
    ensures
        strip_marker(head + tail) == head + strip_marker(tail),
    decreases head.len(),
{
    let whole = head + tail;
    if head.len() == 0 {
        assert(whole =~= tail);
        assert(head + strip_marker(tail) =~= strip_marker(tail));
    } else {
        let shorter = head.skip(1);
        assert(!(whole[0] == 0x30 && 1 < whole.len() && whole[1] == 0x78));
        assert(whole.skip(1) =~= shorter + tail);
        assert forall|i: int| 0 <= i < shorter.len() implies !(#[trigger] (shorter + tail)[i]
            == 0x30 && i + 1 < (shorter + tail).len() && (shorter + tail)[i + 1] == 0x78) by {
            assert((shorter + tail)[i] == whole[i + 1]);
            if i + 1 < (shorter + tail).len() {
                assert((shorter + tail)[i + 1] == whole[i + 2]);
            }
        }
        lemma_strip_keeps(shorter, tail);
        assert(seq![whole[0]] + (shorter + strip_marker(tail)) =~= head + strip_marker(tail));
    }
}

/// Lower case in a text is lower case in its encoding.
pub proof fn lemma_lower_encoding(text: Seq<char>)
    ensures
        encode_utf8(lower_text(text)) == lower_bytes(encode_utf8(text)),
    decreases text.len(),
{
    if text.len() == 0 {
        assert(lower_bytes(encode_utf8(text)) =~= encode_utf8(lower_text(text)));
    } else {
        let c = text[0];
        let rest = text.drop_first();
        assert(lower_text(text).drop_first() =~= lower_text(rest));
        lemma_lower_encoding(rest);
        lemma_char_encoding(c);
        lemma_char_encoding(lower_case(c));
        lemma_char_numbers(c, 'A');
        lemma_char_numbers('A', c);
        lemma_char_numbers(c, 'F');
        assert(encode_scalar(lower_case(c) as u32) =~= lower_bytes(encode_scalar(c as u32)));
        assert(lower_bytes(encode_scalar(c as u32) + encode_utf8(rest)) =~= lower_bytes(
            encode_scalar(c as u32),
        ) + lower_bytes(encode_utf8(rest)));
    }
}

/// Lower case neither makes a marker nor takes one away.
pub proof fn lemma_lower_strip(data: Seq<u8>)
    ensures
        strip_marker(lower_bytes(data)) == lower_bytes(strip_marker(data)),
    decreases data.len(),
{
    let low = lower_bytes(data);
    if data.len() == 0 {
        assert(low =~= data);
    } else if data.len() >= 2 && data[0] == 0x30 && data[1] == 0x78 {
        assert(low.skip(2) =~= lower_bytes(data.skip(2)));
        lemma_lower_strip(data.skip(2));
    } else {
        assert(low.skip(1) =~= lower_bytes(data.skip(1)));
        lemma_lower_strip(data.skip(1));
        assert(lower_bytes(seq![data[0]] + strip_marker(data.skip(1))) =~= seq![low[0]]
            + lower_bytes(strip_marker(data.skip(1))));
    }
}

/// Lower case leaves the first byte that is no digit where it is.
pub proof fn lemma_lower_first_non_digit(data: Seq<u8>)
    ensures
        first_non_digit(lower_bytes(data)) == first_non_digit(data),
    decreases data.len(),
{
    if data.len() > 0 && is_hex_digit(data[0]) {
        assert(lower_bytes(data).skip(1) =~= lower_bytes(data.skip(1)));
        lemma_lower_first_non_digit(data.skip(1));
    }
}

} // verus!
