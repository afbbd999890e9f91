//! UTF-8 notation: the text whose encoding the bytes are.
//!
//! The encoding itself is `vstd`'s [`encode_utf8`] and [`decode_utf8`]. This
//! module states that std's validation agrees with [`valid_utf8`].

use vstd::prelude::*;
use vstd::utf8::*;

verus! {

/// The error of `core::str::from_utf8`. Its fields are private: a value of it
/// is carried along and never looked into.
#[verifier::external_type_specification]
#[verifier::external_body]
pub struct ExUtf8Error(core::str::Utf8Error);

/// `core::str::from_utf8` accepts exactly the well-formed sequences, and the
/// string slice it then returns consists of the bytes it was given.
pub assume_specification[ core::str::from_utf8 ](v: &[u8]) -> (res: Result<
    &str,
    core::str::Utf8Error,
>)
    ensures
        valid_utf8(v@) <==> res is Ok,
        res matches Ok(text) ==> encode_utf8(text@) == v@,
;

/// Reads `bytes` as UTF-8.
pub(crate) fn utf8_string(bytes: &[u8]) -> (res: Result<String, core::str::Utf8Error>)
    ensures
        valid_utf8(bytes@) <==> res is Ok,
        res matches Ok(text) ==> text@ == decode_utf8(bytes@),
{
    match core::str::from_utf8(bytes) {
        Ok(text) => {
            proof {
                encode_utf8_decode_utf8(text@);
            }
            Ok(text.to_owned())
        },
        Err(e) => Err(e),
    }
}

/// The encoding of a text is the encoding of its parts, one after the other.
pub proof fn lemma_encode_concat(head: Seq<char>, tail: Seq<char>)
    ensures
        encode_utf8(head + tail) == encode_utf8(head) + encode_utf8(tail),
    decreases head.len(),
{
    if head.len() == 0 {
        assert(head + tail =~= tail);
        assert(encode_utf8(head) + encode_utf8(tail) =~= encode_utf8(tail));
    } else {
        assert((head + tail).drop_first() =~= head.drop_first() + tail);
        lemma_encode_concat(head.drop_first(), tail);
        assert(encode_utf8(head + tail) =~= encode_utf8(head) + encode_utf8(tail));
    }
}

proof fn lemma_scalar_bytes(scalar: u32)
    by (bit_vector)
    requires
        scalar > 0x7f,
    ensures
        leading_byte_width_2(scalar) > 127,
        leading_byte_width_3(scalar) > 127,
        leading_byte_width_4(scalar) > 127,
        last_continuation_byte(scalar) > 127,
        second_last_continuation_byte(scalar) > 127,
        third_last_continuation_byte(scalar) > 127,
{
}

proof fn lemma_narrow_scalar_byte(scalar: u32)
    by (bit_vector)
    requires
        scalar <= 0x7f,
    ensures
        leading_byte_width_1(scalar) == scalar,
{
}

/// Characters are told apart by their numbers.
pub proof fn lemma_char_numbers(c: char, d: char)
    ensures
        c as u32 == d as u32 <==> c == d,
        c as u32 <= d as u32 <==> c <= d,
        c as u32 <= 0x7f ==> c as u8 == c as u32,
{
}

/// A character up to 127 is encoded by the byte of its number, and every byte
/// in the encoding of another character is above 127.
pub proof fn lemma_char_encoding(c: char)
    ensures
        1 <= encode_scalar(c as u32).len() <= 4,
        c as u32 <= 0x7f ==> encode_scalar(c as u32) == seq![c as u8],
        c as u32 > 0x7f ==> forall|i: int|
            0 <= i < encode_scalar(c as u32).len() ==> #[trigger] encode_scalar(c as u32)[i] > 127,
{
    let scalar = c as u32;
    if scalar <= 0x7f {
        lemma_narrow_scalar_byte(scalar);
        assert(encode_scalar(scalar) =~= seq![c as u8]);
    } else {
        lemma_scalar_bytes(scalar);
    }
}

/// The encoding of a single character, and of a text behind one.
pub proof fn lemma_encode_first(c: char, rest: Seq<char>)
    ensures
        encode_utf8(seq![c]) == encode_scalar(c as u32),
        encode_utf8(seq![c] + rest) == encode_scalar(c as u32) + encode_utf8(rest),
{
    assert(seq![c].drop_first() =~= Seq::<char>::empty());
    assert(encode_utf8(Seq::<char>::empty()) =~= Seq::<u8>::empty());
    assert(encode_utf8(seq![c]) =~= encode_scalar(seq![c][0] as u32) + encode_utf8(
        seq![c].drop_first(),
    ));
    assert(encode_utf8(seq![c]) =~= encode_scalar(c as u32));
    lemma_encode_concat(seq![c], rest);
}

} // verus!
