//! The four notations, and reading and writing in each of them.

use crate::ascii::{all_ascii, ascii_bytes, ascii_string, ascii_text, ascii_vec, is_ascii_bytes};
use crate::decimal::{decimal_bytes, decimal_text, decode_decimal, encode_decimal};
use crate::grouping::{groups, joined};
use crate::hexadecimal::{
    hex_bytes, hex_decode, hex_encode, hex_text, remove_marker, strip_marker, HexError,
};
use crate::unicode::utf8_string;
use vstd::prelude::*;
use vstd::slice::slice_subrange;
use vstd::string::*;
use vstd::utf8::*;

verus! {

/// A notation for bytes: the formatting system in which a text is read or
/// written.
#[derive(Copy, Clone, PartialEq, Eq, PartialOrd, Ord, Debug, Structural)]
pub enum System {
    /// ASCII
    Ascii,
    /// UTF-8
    Utf8,
    /// Hexadecimal
    Hex,
    /// Decimal
    Dec,
}

/// Why a text could not be read, or bytes could not be written.
#[derive(Debug)]
pub enum AppError {
    /// Reading ASCII: a character above 127.
    AsciiDecode,
    /// Reading hexadecimal digits: what the `hex` crate reports.
    HexDecode(HexError),
    /// Reading decimal numbers: a token that is no number from 0 to 255.
    DecDecode,
    /// Writing ASCII: a byte above 127.
    AsciiEncode,
    /// Writing UTF-8: the error of the standard library's `str` type.
    Utf8Encode(core::str::Utf8Error),
    /// Writing in groups: a group of no bytes.
    ZeroGrouping,
}

impl Clone for AppError {
    fn clone(&self) -> (res: Self)
        ensures
            res == *self,
    {
        match self {
            AppError::AsciiDecode => AppError::AsciiDecode,
            AppError::HexDecode(detail) => AppError::HexDecode(*detail),
            AppError::DecDecode => AppError::DecDecode,
            AppError::AsciiEncode => AppError::AsciiEncode,
            AppError::Utf8Encode(detail) => AppError::Utf8Encode(*detail),
            AppError::ZeroGrouping => AppError::ZeroGrouping,
        }
    }
}

impl AppError {
    /// Whether the error arises while a text is read, not while bytes are
    /// written.
    pub open spec fn spec_is_decoding(&self) -> bool {
        self is AsciiDecode || self is HexDecode || self is DecDecode
    }

    /// Tells whether the error arises while a text is read, not while bytes
    /// are written.
    #[verifier::when_used_as_spec(spec_is_decoding)]
    pub fn is_decoding(&self) -> (b: bool)
        ensures
            b == self.spec_is_decoding(),
    {
        match self {
            AppError::AsciiDecode => true,
            AppError::HexDecode(_) => true,
            AppError::DecDecode => true,
            AppError::AsciiEncode => false,
            AppError::Utf8Encode(_) => false,
            AppError::ZeroGrouping => false,
        }
    }
}

impl System {
    /// What `text` denotes in this notation, or why it denotes nothing.
    ///
    /// Hexadecimal digits are looked for in the UTF-8 encoding of the text,
    /// after its `0x` markers are removed: positions count bytes there.
    pub open spec fn spec_decode(self, text: Seq<char>) -> Result<Seq<u8>, AppError> {
        match self {
            System::Ascii => if is_ascii_chars(text) {
                Ok(ascii_bytes(text))
            } else {
                Err(AppError::AsciiDecode)
            },
            System::Utf8 => Ok(encode_utf8(text)),
            System::Hex => match hex_bytes(strip_marker(encode_utf8(text))) {
                Ok(bytes) => Ok(bytes),
                Err(detail) => Err(AppError::HexDecode(detail)),
            },
            System::Dec => match decimal_bytes(text) {
                Some(bytes) => Ok(bytes),
                None => Err(AppError::DecDecode),
            },
        }
    }

    /// The text of `bytes` in this notation, where they have one.
    pub open spec fn spec_encode(self, bytes: Seq<u8>) -> Option<Seq<char>> {
        match self {
            System::Ascii => if is_ascii_bytes(bytes) {
                Some(ascii_text(bytes))
            } else {
                None
            },
            System::Utf8 => if valid_utf8(bytes) {
                Some(decode_utf8(bytes))
            } else {
                None
            },
            System::Hex => Some(hex_text(bytes)),
            System::Dec => Some(decimal_text(bytes)),
        }
    }

    /// Whether `e` is the error with which writing in this notation fails.
    pub open spec fn encode_error(self, e: AppError) -> bool {
        match self {
            System::Ascii => e is AsciiEncode,
            System::Utf8 => e is Utf8Encode,
            System::Hex => false,
            System::Dec => false,
        }
    }

    /// The texts of the groups of `bytes`, joined by `separator`, where every
    /// group has a text and a group holds at least one byte.
    pub open spec fn spec_interleave(
        self,
        bytes: Seq<u8>,
        separator: Seq<char>,
        grouping: nat,
    ) -> Option<Seq<char>> {
        let list = groups(bytes, grouping);
        if grouping > 0 && forall|k: int|
            0 <= k < list.len() ==> (#[trigger] self.spec_encode(list[k])) is Some {
            Some(
                joined(
                    Seq::new(list.len(), |k: int| self.spec_encode(list[k]).unwrap()),
                    separator,
                ),
            )
        } else {
            None
        }
    }

    /// Reads `data` in this notation and yields the bytes that it denotes.
    ///
    /// - ASCII: one byte for each character; `AsciiDecode` where a character
    ///   is above 127.
    /// - UTF-8: the encoding of the text.
    /// - Hexadecimal: the `0x` markers are left out, then each pair of digits,
    ///   in either case, gives a byte; `HexDecode` with the detail of the
    ///   `hex` crate where the length is odd or a character is no digit.
    /// - Decimal: the text is split at each comma and each white space
    ///   character, and each token gives a byte; `DecDecode` where a token is
    ///   empty, is no number or is above 255.
    pub fn decode(&self, data: String) -> (res: Result<Vec<u8>, AppError>)
        ensures
            res matches Ok(bytes) ==> self.spec_decode(data@) matches Ok(b) && b == bytes@,
            res matches Err(e) ==> self.spec_decode(data@) matches Err(f) && f == e,
    {
        match self {
            System::Ascii => match ascii_vec(data.as_str()) {
                Some(bytes) => Ok(bytes),
                None => Err(AppError::AsciiDecode),
            },
            System::Utf8 => Ok(data.as_str().as_bytes_vec()),
            System::Hex => {
                let digits = remove_marker(data.as_str().as_bytes());
                match hex_decode(digits.as_slice()) {
                    Ok(bytes) => Ok(bytes),
                    Err(detail) => Err(AppError::HexDecode(detail)),
                }
            },
            System::Dec => match decode_decimal(data.as_str()) {
                Some(bytes) => Ok(bytes),
                None => Err(AppError::DecDecode),
            },
        }
    }

    /// Writes `data` in this notation.
    ///
    /// - ASCII: the character of each byte; `AsciiEncode` where a byte is
    ///   above 127.
    /// - UTF-8: the text that the bytes encode; `Utf8Encode` with the detail
    ///   of the standard library where they are not well-formed.
    /// - Hexadecimal: two lower-case digits for each byte.
    /// - Decimal: the numeral of each byte, with nothing between them.
    pub fn encode(&self, data: &[u8]) -> (res: Result<String, AppError>)
        ensures
            res matches Ok(text) ==> self.spec_encode(data@) == Some(text@),
            res matches Err(e) ==> self.spec_encode(data@) is None && self.encode_error(e),
    {
        match self {
            System::Ascii => if all_ascii(data) {
                Ok(ascii_string(data))
            } else {
                Err(AppError::AsciiEncode)
            },
            System::Utf8 => match utf8_string(data) {
                Ok(text) => Ok(text),
                Err(detail) => Err(AppError::Utf8Encode(detail)),
            },
            System::Hex => Ok(hex_encode(data)),
            System::Dec => Ok(encode_decimal(data)),
        }
    }

    /// Writes `data` group by group: `grouping` bytes to a group, the last
    /// group holding what is left, each group written as `encode` writes it,
    /// and `separator` between each two groups.
    ///
    /// Fails with `ZeroGrouping` where `grouping` is 0, whatever the bytes,
    /// and else with the error of the first group that cannot be written.
    pub fn interleave(&self, data: &[u8], separator: String, grouping: usize) -> (res: Result<
        String,
        AppError,
    >)
        ensures
            grouping == 0 ==> res matches Err(AppError::ZeroGrouping),
            res matches Ok(text) ==> self.spec_interleave(data@, separator@, grouping as nat)
                == Some(text@),
            res matches Err(e) ==> self.spec_interleave(data@, separator@, grouping as nat) is None
                && (grouping > 0 ==> self.encode_error(e)),
    {
        if grouping == 0 {
            return Err(AppError::ZeroGrouping);
        }
        let ghost size = grouping as nat;
        let mut out = String::new();
        let mut start: usize = 0;
        let ghost mut seen: Seq<Seq<u8>> = Seq::empty();
        let ghost mut texts: Seq<Seq<char>> = Seq::empty();
        proof {
            assert(data@.skip(0) =~= data@);
            assert(seen + groups(data@, size) =~= groups(data@, size));
        }
        while start < data.len()
            invariant
                size == grouping,
                grouping > 0,
                start <= data.len(),
                groups(data@, size) == seen + groups(data@.skip(start as int), size),
                texts.len() == seen.len(),
                forall|k: int|
                    0 <= k < seen.len() ==> self.spec_encode(#[trigger] seen[k]) == Some(texts[k]),
                out@ == joined(texts, separator@),
                (start == 0) == (seen.len() == 0),
            decreases data.len() - start,
        {
            let end: usize = if data.len() - start > grouping {
                start + grouping
            } else {
                data.len()
            };
            let group = slice_subrange(data, start, end);
            let ghost rest = data@.skip(start as int);
            proof {
                if rest.len() <= size {
                    assert(group@ =~= rest);
                    assert(data@.skip(end as int).len() == 0);
                    assert(groups(rest, size) =~= seq![group@] + groups(
                        data@.skip(end as int),
                        size,
                    ));
                } else {
                    assert(rest.take(size as int) =~= group@);
                    assert(rest.skip(size as int) =~= data@.skip(end as int));
                }
                assert(groups(data@, size) =~= seen.push(group@) + groups(
                    data@.skip(end as int),
                    size,
                ));
                assert(groups(data@, size)[seen.len() as int] == group@);
            }
            match self.encode(group) {
                Ok(text) => {
                    if start > 0 {
                        out.append(separator.as_str());
                    }
                    out.append(text.as_str());
                    proof {
                        assert(texts.push(text@).drop_last() =~= texts);
                        seen = seen.push(group@);
                        texts = texts.push(text@);
                    }
                },
                Err(e) => {
                    return Err(e);
                },
            }
            start = end;
        }
        proof {
            let list = groups(data@, size);
            assert(list =~= seen);
            assert(Seq::new(list.len(), |k: int| self.spec_encode(list[k]).unwrap()) =~= texts);
        }
        Ok(out)
    }
}

/// The text that `convert` yields, where it yields one: what `text` denotes
/// in the notation `input`, written in the notation `output`, in one piece or
/// in groups.
pub open spec fn spec_convert(
    input: System,
    output: System,
    text: Seq<char>,
    grouping: Option<(Seq<char>, nat)>,
) -> Option<Seq<char>> {
    match input.spec_decode(text) {
        Ok(bytes) => match grouping {
            Some((separator, size)) => output.spec_interleave(bytes, separator, size),
            None => output.spec_encode(bytes),
        },
        Err(_) => None,
    }
}

/// Whether `e` is the error with which `convert` fails: the one of reading,
/// where the text denotes nothing; else `ZeroGrouping` for groups of no bytes;
/// else the one of writing.
pub open spec fn convert_error(
    input: System,
    output: System,
    text: Seq<char>,
    grouping: Option<(Seq<char>, nat)>,
    e: AppError,
) -> bool {
    match input.spec_decode(text) {
        Ok(_) => if grouping matches Some((_, size)) && size == 0 {
            e == AppError::ZeroGrouping
        } else {
            output.encode_error(e)
        },
        Err(f) => e == f,
    }
}

/// The view of a separator and a group size.
pub open spec fn grouping_view(grouping: Option<(String, usize)>) -> Option<(Seq<char>, nat)> {
    match grouping {
        Some((separator, size)) => Some((separator@, size as nat)),
        None => None,
    }
}

/// Reads `data` in the notation `input` and writes what it denotes in the
/// notation `output`: group by group where `grouping` gives a separator and
/// the number of bytes in a group, in one piece where it gives none.
pub fn convert(
    input: System,
    output: System,
    data: String,
    grouping: Option<(String, usize)>,
) -> (res: Result<String, AppError>)
    ensures
        res matches Ok(text) ==> spec_convert(input, output, data@, grouping_view(grouping))
            == Some(text@),
        res matches Err(e) ==> spec_convert(input, output, data@, grouping_view(grouping)) is None
            && convert_error(input, output, data@, grouping_view(grouping), e),
{
    match input.decode(data) {
        Ok(bytes) => match grouping {
            Some((separator, size)) => output.interleave(bytes.as_slice(), separator, size),
            None => output.encode(bytes.as_slice()),
        },
        Err(e) => Err(e),
    }
}

} // verus!
