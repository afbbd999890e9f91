//! How reading and writing fit together.
//!
//! Each law is a proof about the functions that specify [`System::decode`],
//! [`System::encode`] and [`System::interleave`]: what holds of them holds of
//! every call.

use crate::ascii::{ascii_bytes, lemma_ascii_bytes_are_utf8, lemma_ascii_chars_encoding};
use crate::decimal::{
    decimal_digits, decimal_text, is_delimiter, lemma_numeral_value, lemma_single_token,
    lemma_tokens_hold_no_delimiter, lemma_tokens_of_joined, lemma_tokens_split, token_value,
    token_values, tokens,
};
use crate::grouping::{
    groups, joined, lemma_groups_of_one, lemma_groups_part, lemma_joined_first,
};
use crate::hexadecimal::{
    first_non_digit, hex_bytes, hex_text, is_hex_digit, lemma_all_hex_digits,
    lemma_first_non_digit_bound, lemma_lower_encoding, lemma_lower_first_non_digit,
    lemma_lower_strip, lemma_strip_concat, lemma_strip_keeps, lemma_strip_without_x,
    lower_bytes, lower_text, pair_value, strip_marker, strip_marker_text,
};
use crate::system::{AppError, System};
use crate::unicode::{
    lemma_char_encoding, lemma_char_numbers, lemma_encode_concat, lemma_encode_first,
};
use vstd::prelude::*;
use vstd::utf8::*;

verus! {

/// Reading what was written gives the bytes back: for every notation and all
/// bytes that it can write. In decimal notation this holds of a single byte
/// only, because nothing parts the numbers of a longer text.
pub proof fn round_trip(system: System, bytes: Seq<u8>)
    requires
        system.spec_encode(bytes) is Some,
        system == System::Dec ==> bytes.len() == 1,
    ensures
        system.spec_decode(system.spec_encode(bytes).unwrap()) == Ok::<Seq<u8>, AppError>(bytes),
{
    match system {
        System::Ascii => {
            lemma_ascii_bytes_are_utf8(bytes);
        },
        System::Utf8 => {
            decode_utf8_encode_utf8(bytes);
        },
        System::Hex => {
            hex_round_trip(bytes);
        },
        System::Dec => {
            assert(bytes =~= seq![bytes[0]]);
            decimal_round_trip(bytes[0]);
        },
    }
}

/// The hexadecimal text of any bytes is read back as these bytes.
pub proof fn hex_round_trip(bytes: Seq<u8>)
    ensures
        System::Hex.spec_decode(hex_text(bytes)) == Ok::<Seq<u8>, AppError>(bytes),
{
    let text = hex_text(bytes);
    assert forall|i: int| 0 <= i < text.len() implies '\0' <= #[trigger] text[i] <= '\u{7f}' by {}
    lemma_ascii_chars_encoding(text);
    let data = ascii_bytes(text);
    assert forall|i: int| 0 <= i < data.len() implies #[trigger] data[i] != 0x78 && is_hex_digit(
        data[i],
    ) by {}
    lemma_strip_without_x(data);
    lemma_all_hex_digits(data);
    let read = Seq::new(data.len() / 2, |k: int| pair_value(data[2 * k], data[2 * k + 1]));
    assert(read =~= bytes) by {
        assert forall|k: int| 0 <= k < bytes.len() implies read[k] == bytes[k] by {
            assert(data[2 * k] == text[2 * k] as u8);
            assert(data[2 * k + 1] == text[2 * k + 1] as u8);
        }
    }
}

/// The decimal text of a single byte is read back as this byte.
pub proof fn decimal_round_trip(b: u8)
    ensures
        System::Dec.spec_decode(decimal_text(seq![b])) == Ok::<Seq<u8>, AppError>(seq![b]),
{
    let text = decimal_text(seq![b]);
    assert(seq![b].drop_last() =~= Seq::<u8>::empty());
    assert(decimal_text(Seq::<u8>::empty()) =~= Seq::<char>::empty());
    assert(text =~= decimal_digits(b as nat));
    lemma_numeral_value(b);
    lemma_single_token(text);
    assert(token_values(seq![text]).unwrap() =~= seq![b]);
}

/// Decimal notation gives the bytes back once a delimiter parts the numbers:
/// what `interleave` writes for groups of one byte, with a single delimiter as
/// the separator, is read back as the bytes, if there are any.
pub proof fn decimal_round_trip_in_groups(bytes: Seq<u8>, delimiter: char)
    requires
        bytes.len() > 0,
        is_delimiter(delimiter),
    ensures
        System::Dec.spec_interleave(bytes, seq![delimiter], 1) is Some,
        System::Dec.spec_decode(System::Dec.spec_interleave(bytes, seq![delimiter], 1).unwrap())
            == Ok::<Seq<u8>, AppError>(bytes),
{
    let list = groups(bytes, 1);
    lemma_groups_of_one(bytes);
    let texts = Seq::new(list.len(), |k: int| System::Dec.spec_encode(list[k]).unwrap());
    assert forall|k: int| 0 <= k < texts.len() implies #[trigger] texts[k] == decimal_digits(
        bytes[k] as nat,
    ) && token_value(texts[k]) == Some(bytes[k]) by {
        assert(list[k] == seq![bytes[k]]);
        assert(seq![bytes[k]].drop_last() =~= Seq::<u8>::empty());
        assert(decimal_text(Seq::<u8>::empty()) =~= Seq::<char>::empty());
        assert(decimal_text(seq![bytes[k]]) =~= decimal_digits(bytes[k] as nat));
        lemma_numeral_value(bytes[k]);
    }
    assert forall|k: int, i: int|
        0 <= k < texts.len() && 0 <= i < texts[k].len() implies !is_delimiter(
        #[trigger] texts[k][i],
    ) by {
        lemma_numeral_value(bytes[k]);
        assert(texts[k] == decimal_digits(bytes[k] as nat));
    }
    lemma_tokens_of_joined(texts, delimiter);
    assert(tokens(joined(texts, seq![delimiter])) == texts);
    assert(token_values(texts).unwrap() =~= bytes);
}

/// The empty text denotes no bytes at all in ASCII, UTF-8 and hexadecimal
/// notation. In decimal notation it is one empty token, which is no number.
pub proof fn decode_empty(system: System)
    ensures
        system != System::Dec ==> system.spec_decode(Seq::empty()) == Ok::<Seq<u8>, AppError>(
            Seq::empty(),
        ),
        System::Dec.spec_decode(Seq::empty()) == Err::<Seq<u8>, AppError>(AppError::DecDecode),
{
    let text = Seq::<char>::empty();
    assert(ascii_bytes(text) =~= Seq::<u8>::empty());
    assert(hex_bytes(Seq::<u8>::empty()).unwrap() =~= Seq::<u8>::empty());
    assert(tokens(text)[0] == text);
    assert(token_value(text) is None);
}

/// ASCII ends at 127: bytes are written where none of them is above, and a
/// text is read where none of its characters is above.
pub proof fn ascii_ends_at_127(bytes: Seq<u8>, text: Seq<char>)
    ensures
        System::Ascii.spec_encode(bytes) is Some <==> (forall|i: int|
            0 <= i < bytes.len() ==> bytes[i] <= 127),
        System::Ascii.spec_decode(text) is Ok <==> (forall|i: int|
            0 <= i < text.len() ==> text[i] <= '\u{7f}'),
        System::Ascii.spec_decode(text) matches Err(e) ==> e == AppError::AsciiDecode,
{
    assert forall|i: int| 0 <= i < text.len() implies '\0' <= #[trigger] text[i] by {
        lemma_char_numbers('\0', text[i]);
    }
}

/// Every character of a hexadecimal text is a digit or a lower-case letter
/// from `a` to `f`: writing never uses upper case, and never a marker.
pub proof fn encode_hex_is_lower_case(bytes: Seq<u8>)
    ensures
        System::Hex.spec_encode(bytes) == Some(hex_text(bytes)),
        hex_text(bytes).len() == 2 * bytes.len(),
        forall|i: int|
            0 <= i < hex_text(bytes).len() ==> {
                let c = #[trigger] hex_text(bytes)[i];
                ('0' <= c <= '9') || ('a' <= c <= 'f')
            },
{
}

/// Reading hexadecimal digits does not tell upper case from lower case: a
/// text denotes what it denotes with its letters `A` to `F` in lower case, and
/// where it denotes nothing, the reason is the same.
pub proof fn decode_hex_ignores_case(text: Seq<char>)
    ensures
        System::Hex.spec_decode(lower_text(text)) == System::Hex.spec_decode(text),
{
    let data = strip_marker(encode_utf8(text));
    let low = lower_bytes(data);
    lemma_lower_encoding(text);
    lemma_lower_strip(encode_utf8(text));
    assert(strip_marker(encode_utf8(lower_text(text))) == low);
    lemma_lower_first_non_digit(data);
    lemma_first_non_digit_bound(data);
    let at = first_non_digit(data) as int;
    if data.len() % 2 == 0 && at >= data.len() {
        let read = Seq::new(data.len() / 2, |k: int| pair_value(data[2 * k], data[2 * k + 1]));
        let read_low = Seq::new(low.len() / 2, |k: int| pair_value(low[2 * k], low[2 * k + 1]));
        assert(read_low =~= read);
    }
}

/// A marker may stand anywhere in a hexadecimal text and counts for nothing:
/// with it the text denotes what it denotes without it. The one exception is
/// a marker set directly before an `x`, where taking it out could bring a `0`
/// and that `x` together to a new marker.
pub proof fn marker_is_ignored(before: Seq<char>, after: Seq<char>)
    requires
        after.len() > 0 ==> after[0] != 'x',
    ensures
        System::Hex.spec_decode(before + seq!['0', 'x'] + after) == System::Hex.spec_decode(
            before + after,
        ),
{
    let marker = seq!['0', 'x'];
    let head = encode_utf8(before);
    let tail = encode_utf8(after);
    assert(encode_utf8(marker) =~= seq![0x30u8, 0x78u8]) by {
        assert(marker =~= seq!['0'] + seq!['x']);
        lemma_encode_first('0', seq!['x']);
        lemma_encode_first('x', Seq::empty());
        lemma_char_encoding('0');
        lemma_char_encoding('x');
    }
    lemma_encode_concat(before + marker, after);
    lemma_encode_concat(before, marker);
    lemma_encode_concat(before, after);
    if after.len() > 0 {
        lemma_char_encoding(after[0]);
        lemma_char_numbers(after[0], 'x');
        assert(tail[0] == encode_scalar(after[0] as u32)[0]);
        assert(tail[0] != 0x78);
    }
    let rest = encode_utf8(marker) + tail;
    assert(rest.skip(2) =~= tail);
    assert(strip_marker(rest) == strip_marker(tail));
    assert(head + encode_utf8(marker) + tail =~= head + rest);
    lemma_strip_concat(head, rest);
    lemma_strip_concat(head, tail);
}

/// The markers of a text are those of its encoding: it is the same to take
/// them out of the characters and to take them out of the bytes.
pub proof fn markers_are_those_of_the_text(text: Seq<char>)
    ensures
        strip_marker(encode_utf8(text)) == encode_utf8(strip_marker_text(text)),
    decreases text.len(),
{
    if text.len() == 0 {
    } else if text.len() >= 2 && text[0] == '0' && text[1] == 'x' {
        let rest = text.skip(2);
        assert(text =~= seq!['0'] + (seq!['x'] + rest));
        lemma_encode_first('0', seq!['x'] + rest);
        lemma_encode_first('x', rest);
        lemma_char_encoding('0');
        lemma_char_encoding('x');
        let bytes = encode_utf8(text);
        assert(bytes[0] == 0x30 && bytes[1] == 0x78);
        assert(bytes.skip(2) =~= encode_utf8(rest));
        markers_are_those_of_the_text(rest);
    } else {
        let c = text[0];
        let rest = text.skip(1);
        let head = encode_scalar(c as u32);
        let tail = encode_utf8(rest);
        assert(text =~= seq![c] + rest);
        lemma_encode_first(c, rest);
        lemma_char_encoding(c);
        lemma_char_numbers(c, '0');
        if rest.len() > 0 {
            assert(rest =~= seq![rest[0]] + rest.skip(1));
            assert(rest[0] == text[1]);
            lemma_encode_first(rest[0], rest.skip(1));
            lemma_char_encoding(rest[0]);
            lemma_char_numbers(rest[0], 'x');
            assert(tail[0] == encode_scalar(rest[0] as u32)[0]);
        }
        assert forall|i: int| 0 <= i < head.len() implies !(#[trigger] (head + tail)[i] == 0x30
            && i + 1 < (head + tail).len() && (head + tail)[i + 1] == 0x78) by {
            assert((head + tail)[i] == head[i]);
            if c as u32 <= 0x7f && i + 1 < (head + tail).len() {
                assert((head + tail)[i + 1] == tail[0]);
            }
        }
        lemma_strip_keeps(head, tail);
        markers_are_those_of_the_text(rest);
        lemma_encode_first(c, strip_marker_text(rest));
    }
}

/// Reading in decimal notation splits the text at each delimiter, whichever
/// it is: the tokens of a text with a delimiter in it are those before the
/// delimiter and then those behind it. A text without a delimiter is one
/// token, and no token holds a delimiter.
pub proof fn tokens_lie_between_delimiters(before: Seq<char>, delimiter: char, after: Seq<char>)
    requires
        is_delimiter(delimiter),
    ensures
        tokens(before + seq![delimiter] + after) == tokens(before) + tokens(after),
        (forall|i: int| 0 <= i < after.len() ==> !is_delimiter(after[i])) ==> tokens(after)
            == seq![after],
        forall|k: int, i: int|
            0 <= k < tokens(after).len() && 0 <= i < tokens(after)[k].len() ==> !is_delimiter(
                #[trigger] tokens(after)[k][i],
            ),
{
    lemma_tokens_split(before, delimiter, after);
    lemma_tokens_hold_no_delimiter(after);
    if forall|i: int| 0 <= i < after.len() ==> !is_delimiter(after[i]) {
        lemma_single_token(after);
    }
}

/// The groups that `interleave` writes part the bytes: one after the other
/// they are the bytes again, each holds `grouping` bytes but the last, and the
/// last holds at least one byte.
pub proof fn groups_part_the_bytes(bytes: Seq<u8>, grouping: nat)
    requires
        grouping > 0,
    ensures
        groups(bytes, grouping).flatten() == bytes,
        forall|k: int|
            0 <= k < groups(bytes, grouping).len() ==> 1 <= (#[trigger] groups(
                bytes,
                grouping,
            )[k]).len() <= grouping,
        forall|k: int|
            0 <= k < groups(bytes, grouping).len() - 1 ==> (#[trigger] groups(
                bytes,
                grouping,
            )[k]).len() == grouping,
{
    lemma_groups_part(bytes, grouping);
}

/// Bytes that fit into one group are written as `encode` writes them.
pub proof fn interleave_of_one_group(
    system: System,
    bytes: Seq<u8>,
    separator: Seq<char>,
    grouping: nat,
)
    requires
        grouping > 0,
        bytes.len() <= grouping,
    ensures
        system.spec_interleave(bytes, separator, grouping) == system.spec_encode(bytes),
{
    let list = groups(bytes, grouping);
    let texts = Seq::new(list.len(), |k: int| system.spec_encode(list[k]).unwrap());
    if bytes.len() == 0 {
        assert(texts =~= Seq::<Seq<char>>::empty());
        assert(system.spec_encode(bytes).unwrap() =~= Seq::<char>::empty()) by {
            assert(decimal_text(bytes) =~= Seq::<char>::empty());
        }
    } else {
        assert(list[0] == bytes);
        if system.spec_encode(bytes) is Some {
            assert(texts =~= seq![system.spec_encode(bytes).unwrap()]);
        }
    }
}

/// Longer bytes are written as the text of their first group, the separator,
/// and what `interleave` writes for the bytes behind that group; and not at
/// all where one of the two cannot be written.
pub proof fn interleave_of_more_groups(
    system: System,
    bytes: Seq<u8>,
    separator: Seq<char>,
    grouping: nat,
)
    requires
        grouping > 0,
        bytes.len() > grouping,
    ensures
        system.spec_interleave(bytes, separator, grouping) == (match (
            system.spec_encode(bytes.take(grouping as int)),
            system.spec_interleave(bytes.skip(grouping as int), separator, grouping),
        ) {
            (Some(first), Some(others)) => Some(first + separator + others),
            _ => None,
        }),
{
    let head = bytes.take(grouping as int);
    let rest = groups(bytes.skip(grouping as int), grouping);
    let list = groups(bytes, grouping);
    lemma_groups_part(bytes.skip(grouping as int), grouping);
    assert(list =~= seq![head] + rest);
    assert(list[0] == head);
    assert forall|k: int| 0 <= k < rest.len() implies rest[k] == list[k + 1] by {}
    let texts = Seq::new(list.len(), |k: int| system.spec_encode(list[k]).unwrap());
    let others = Seq::new(rest.len(), |k: int| system.spec_encode(rest[k]).unwrap());
    if system.spec_encode(head) is Some && system.spec_interleave(
        bytes.skip(grouping as int),
        separator,
        grouping,
    ) is Some {
        assert forall|k: int| 0 <= k < list.len() implies (#[trigger] system.spec_encode(
            list[k],
        )) is Some by {
            if k > 0 {
                assert(system.spec_encode(rest[k - 1]) is Some);
            }
        }
        assert(texts =~= seq![system.spec_encode(head).unwrap()] + others);
        lemma_joined_first(system.spec_encode(head).unwrap(), others, separator);
    } else if system.spec_encode(head) is None {
        assert(system.spec_encode(list[0]) is None);
    } else {
        let k = choose|k: int|
            0 <= k < rest.len() && !((#[trigger] system.spec_encode(rest[k])) is Some);
        assert(system.spec_encode(list[k + 1]) is None);
    }
}

} // verus!
