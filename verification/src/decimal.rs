//! Decimal notation: a list of numbers from 0 to 255, one for each byte.
//!
//! A text is read as tokens, the stretches between its delimiters, and each
//! token must be a number of its own. Written, the numbers follow each other
//! with nothing between them.

use crate::ascii::{ascii_string, ascii_text, is_ascii_bytes};
use crate::grouping::joined;
use vstd::prelude::*;

verus! {

/// The characters with the Unicode property `White_Space`: tab to carriage
/// return, the space, next line, the no-break space, the Ogham space mark, the
/// spaces from en quad to hair space, the line and the paragraph separator,
/// the narrow no-break space, the medium mathematical space and the
/// ideographic space.
pub open spec fn is_white_space(c: char) -> bool {
    let n = c as u32;
    ||| 0x09 <= n <= 0x0D
    ||| n == 0x20
    ||| n == 0x85
    ||| n == 0xA0
    ||| n == 0x1680
    ||| 0x2000 <= n <= 0x200A
    ||| n == 0x2028
    ||| n == 0x2029
    ||| n == 0x202F
    ||| n == 0x205F
    ||| n == 0x3000
}

/// A delimiter is a comma or a white space character.
pub open spec fn is_delimiter(c: char) -> bool {
    c == ',' || is_white_space(c)
}

/// The tokens of `text`: the stretches between its delimiters in their order,
/// the empty ones among them. A text with `n` delimiters has `n + 1` tokens.
pub open spec fn tokens(text: Seq<char>) -> Seq<Seq<char>>
    decreases text.len(),
{
    if text.len() == 0 {
        seq![Seq::empty()]
    } else {
        let before = tokens(text.drop_last());
        if is_delimiter(text.last()) {
            before.push(Seq::empty())
        } else {
            before.drop_last().push(before.last().push(text.last()))
        }
    }
}

/// Whether `c` is one of the digits `0` to `9`.
pub open spec fn is_digit(c: char) -> bool {
    '0' <= c <= '9'
}

/// The number that the digit `c` stands for.
pub open spec fn digit_value(c: char) -> nat {
    (c as u32 - 0x30) as nat
}

/// Whether `text` holds digits only.
pub open spec fn all_digits(text: Seq<char>) -> bool {
    forall|i: int| 0 <= i < text.len() ==> is_digit(#[trigger] text[i])
}

/// The number that a sequence of digits denotes; leading zeros count for
/// nothing.
pub open spec fn digits_value(digits: Seq<char>) -> nat
    decreases digits.len(),
{
    if digits.len() == 0 {
        0
    } else {
        10 * digits_value(digits.drop_last()) + digit_value(digits.last())
    }
}

/// A token without the `+` that may stand at its head.
pub open spec fn unsigned_part(token: Seq<char>) -> Seq<char> {
    if token.len() > 0 && token[0] == '+' {
        token.drop_first()
    } else {
        token
    }
}

/// The byte that a token denotes: the token is an optional `+` and then one
/// digit or more, whose number is at most 255.
pub open spec fn token_value(token: Seq<char>) -> Option<u8> {
    let digits = unsigned_part(token);
    if digits.len() > 0 && all_digits(digits) && digits_value(digits) <= 255 {
        Some(digits_value(digits) as u8)
    } else {
        None
    }
}

/// The bytes that a list of tokens denotes, where each of them denotes one.
pub open spec fn token_values(list: Seq<Seq<char>>) -> Option<Seq<u8>> {
    if forall|i: int| 0 <= i < list.len() ==> (#[trigger] token_value(list[i])) is Some {
        Some(Seq::new(list.len(), |i: int| token_value(list[i]).unwrap()))
    } else {
        None
    }
}

/// The bytes that `text` denotes in decimal notation, where it denotes any.
pub open spec fn decimal_bytes(text: Seq<char>) -> Option<Seq<u8>> {
    token_values(tokens(text))
}

/// The digit for a number below 10.
pub open spec fn digit_char(n: nat) -> char {
    (0x30 + n) as char
}

/// The decimal numeral of `n`, without leading zeros.
pub open spec fn decimal_digits(n: nat) -> Seq<char>
    decreases n,
{
    if n < 10 {
        seq![digit_char(n)]
    } else {
        decimal_digits(n / 10).push(digit_char(n % 10))
    }
}

/// The decimal text of `bytes`: the numeral of each byte, one directly after
/// the other.
pub open spec fn decimal_text(bytes: Seq<u8>) -> Seq<char>
    decreases bytes.len(),
{
    if bytes.len() == 0 {
        Seq::empty()
    } else {
        decimal_text(bytes.drop_last()) + decimal_digits(bytes.last() as nat)
    }
}

/// Tells whether `c` ends a token.
pub(crate) fn delimits(c: char) -> (b: bool)
    ensures
        b == is_delimiter(c),
{
    let n: u32 = c as u32;
    c == ',' || (0x09 <= n && n <= 0x0D) || n == 0x20 || n == 0x85 || n == 0xA0 || n == 0x1680
        || (0x2000 <= n && n <= 0x200A) || n == 0x2028 || n == 0x2029 || n == 0x202F
        || n == 0x205F || n == 0x3000
}

/// What is known of a token after some of its characters.
struct Pending {
    /// No character yet.
    empty: bool,
    /// No digit yet: the token is empty or a lone `+`.
    bare: bool,
    /// Every character behind the sign was a digit, and their number fits.
    sound: bool,
    /// That number, while `sound`.
    value: u8,
}

impl Pending {
    /// Whether this is what is known of `token`.
    spec fn describes(self, token: Seq<char>) -> bool {
        let digits = unsigned_part(token);
        &&& self.empty == (token.len() == 0)
        &&& self.bare == (digits.len() == 0)
        &&& self.sound == (all_digits(digits) && digits_value(digits) <= 255)
        &&& self.sound ==> self.value == digits_value(digits)
    }

    /// What is known of the empty token.
    fn start() -> (p: Pending)
        ensures
            p.describes(Seq::empty()),
    {
        Pending { empty: true, bare: true, sound: true, value: 0 }
    }

    /// What is known once `c` has followed. A character that is no digit, or
    /// a number above 255, spoils the token for good: more digits only make
    /// the number larger.
    fn feed(self, c: char, Ghost(token): Ghost<Seq<char>>) -> (p: Pending)
        requires
            self.describes(token),
        ensures
            p.describes(token.push(c)),
    {
        let ghost longer = token.push(c);
        if self.empty && c == '+' {
            assert(unsigned_part(longer) =~= Seq::empty());
            Pending { empty: false, bare: true, sound: true, value: 0 }
        } else {
            let ghost digits = unsigned_part(token);
            proof {
                assert(unsigned_part(longer) =~= digits.push(c));
                assert(digits.push(c).drop_last() =~= digits);
                lemma_all_digits_push(digits, c);
            }
            if self.sound && '0' <= c && c <= '9' {
                let d: u32 = c as u32 - 0x30;
                let next: u32 = 10 * (self.value as u32) + d;
                if next <= 255 {
                    Pending { empty: false, bare: false, sound: true, value: next as u8 }
                } else {
                    Pending { empty: false, bare: false, sound: false, value: 0 }
                }
            } else {
                Pending { empty: false, bare: false, sound: false, value: 0 }
            }
        }
    }

    /// The byte that the token denotes, if it ends here.
    fn value(self, Ghost(token): Ghost<Seq<char>>) -> (v: Option<u8>)
        requires
            self.describes(token),
        ensures
            v == token_value(token),
    {
        if !self.bare && self.sound {
            Some(self.value)
        } else {
            None
        }
    }
}

/// Digits stay digits with one more, and with nothing else.
proof fn lemma_all_digits_push(digits: Seq<char>, c: char)
    ensures
        all_digits(digits.push(c)) == (all_digits(digits) && is_digit(c)),
{
    let longer = digits.push(c);
    if all_digits(digits) && is_digit(c) {
        assert forall|i: int| 0 <= i < longer.len() implies is_digit(#[trigger] longer[i]) by {
            if i < digits.len() {
                assert(longer[i] == digits[i]);
            }
        }
    }
    if all_digits(longer) {
        assert(is_digit(longer[digits.len() as int]));
        assert forall|i: int| 0 <= i < digits.len() implies is_digit(#[trigger] digits[i]) by {
            assert(longer[i] == digits[i]);
        }
    }
}

/// One token more gives one byte more, or spoils the list.
proof fn lemma_values_push(list: Seq<Seq<char>>, token: Seq<char>)
    ensures
        token_values(list.push(token)) == match (token_values(list), token_value(token)) {
            (Some(bytes), Some(b)) => Some(bytes.push(b)),
            _ => None,
        },
{
    let longer = list.push(token);
    assert(longer[list.len() as int] == token);
    assert forall|i: int| 0 <= i < list.len() implies longer[i] == list[i] by {}
    if token_values(list) is Some && token_value(token) is Some {
        assert forall|i: int| 0 <= i < longer.len() implies (#[trigger] token_value(
            longer[i],
        )) is Some by {
            if i < list.len() {
                assert(token_value(list[i]) is Some);
            }
        }
        assert(token_values(longer).unwrap() =~= token_values(list).unwrap().push(
            token_value(token).unwrap(),
        ));
    } else if token_values(list) is None {
        let i = choose|i: int| 0 <= i < list.len() && !((#[trigger] token_value(list[i])) is Some);
        assert(token_value(longer[i]) is None);
    } else {
        assert(token_value(longer[list.len() as int]) is None);
    }
}

/// Reads `text` as a list of decimal numbers.
pub(crate) fn decode_decimal(text: &str) -> (res: Option<Vec<u8>>)
    ensures
        res matches Some(bytes) ==> decimal_bytes(text@) == Some(bytes@),
        res is None ==> decimal_bytes(text@) is None,
{
    let mut out: Vec<u8> = Vec::new();
    let mut failed = false;
    let mut pending = Pending::start();
    let ghost mut done: Seq<Seq<char>> = Seq::empty();
    let ghost mut token: Seq<char> = Seq::empty();
    proof {
        assert(text@.take(0) =~= Seq::<char>::empty());
        assert(tokens(text@.take(0)) =~= done.push(token));
        assert(token_values(done) == Some(out@)) by {
            assert(token_values(done).unwrap() =~= out@);
        }
    }
    for c in it: text.chars()
        invariant
            it.seq() == text@,
            tokens(text@.take(it.index() as int)) == done.push(token),
            token_values(done) == (if failed {
                None
            } else {
                Some(out@)
            }),
            pending.describes(token),
    {
        let ghost at = it.index() as int;
        proof {
            let longer = text@.take(at + 1);
            assert(longer.drop_last() =~= text@.take(at));
            assert(longer.last() == c);
        }
        if delimits(c) {
            let value = pending.value(Ghost(token));
            proof {
                lemma_values_push(done, token);
                done = done.push(token);
                token = Seq::empty();
            }
            match value {
                Some(b) => {
                    if !failed {
                        out.push(b);
                    }
                },
                None => {
                    failed = true;
                },
            }
            pending = Pending::start();
        } else {
            pending = pending.feed(c, Ghost(token));
            proof {
                assert(done.push(token).drop_last() =~= done);
                token = token.push(c);
            }
        }
    }
    proof {
        assert(text@.take(text@.len() as int) =~= text@);
        lemma_values_push(done, token);
    }
    match pending.value(Ghost(token)) {
        Some(b) => {
            if failed {
                None
            } else {
                out.push(b);
                Some(out)
            }
        },
        None => None,
    }
}

/// Appends the numeral of `b` to `out`, one byte for each digit.
fn push_numeral(out: &mut Vec<u8>, b: u8)
    requires
        is_ascii_bytes(old(out)@),
    ensures
        is_ascii_bytes(final(out)@),
        ascii_text(final(out)@) == ascii_text(old(out)@) + decimal_digits(b as nat),
{
    reveal_with_fuel(decimal_digits, 3);
    if b >= 100 {
        out.push(0x30 + b / 100);
    }
    if b >= 10 {
        out.push(0x30 + (b / 10) % 10);
    }
    out.push(0x30 + b % 10);
    assert(ascii_text(out@) =~= ascii_text(old(out)@) + decimal_digits(b as nat));
}

/// Writes `bytes` in decimal notation.
pub(crate) fn encode_decimal(bytes: &[u8]) -> (text: String)
    ensures
        text@ == decimal_text(bytes@),
{
    let mut out: Vec<u8> = Vec::new();
    assert(ascii_text(out@) =~= decimal_text(bytes@.take(0)));
    for i in 0..bytes.len()
        invariant
            is_ascii_bytes(out@),
            ascii_text(out@) == decimal_text(bytes@.take(i as int)),
    {
        assert(bytes@.take(i + 1).drop_last() =~= bytes@.take(i as int));
        push_numeral(&mut out, bytes[i]);
    }
    assert(bytes@.take(bytes@.len() as int) =~= bytes@);
    ascii_string(out.as_slice())
}

/// A text without delimiters is one token.
pub proof fn lemma_single_token(text: Seq<char>)
    requires
        forall|i: int| 0 <= i < text.len() ==> !is_delimiter(#[trigger] text[i]),
    ensures
        tokens(text) == seq![text],
    decreases text.len(),
{
    if text.len() > 0 {
        let shorter = text.drop_last();
        assert forall|i: int| 0 <= i < shorter.len() implies !is_delimiter(
            #[trigger] shorter[i],
        ) by {
            assert(shorter[i] == text[i]);
        }
        lemma_single_token(shorter);
        assert(!is_delimiter(text[text.len() - 1]));
        assert(shorter.push(text.last()) =~= text);
        assert(seq![shorter].last() == shorter);
        assert(seq![shorter].drop_last().push(text) =~= seq![text]);
    } else {
        assert(text =~= Seq::<char>::empty());
    }
}

/// A text has a token, and no token holds a delimiter.
pub proof fn lemma_tokens_hold_no_delimiter(text: Seq<char>)
    ensures
        tokens(text).len() > 0,
        forall|k: int, i: int|
            0 <= k < tokens(text).len() && 0 <= i < tokens(text)[k].len() ==> !is_delimiter(
                #[trigger] tokens(text)[k][i],
            ),
    decreases text.len(),
{
    if text.len() > 0 {
        let before = tokens(text.drop_last());
        lemma_tokens_hold_no_delimiter(text.drop_last());
        let list = tokens(text);
        assert forall|k: int, i: int|
            0 <= k < list.len() && 0 <= i < list[k].len() implies !is_delimiter(
            #[trigger] list[k][i],
        ) by {
            if k < before.len() - 1 {
                assert(list[k] == before[k]);
            } else if !is_delimiter(text.last()) && i < before.last().len() {
                assert(list[k][i] == before[k][i]);
            }
        }
    }
}

/// A delimiter parts the tokens before it from the tokens behind it.
pub proof fn lemma_tokens_split(before: Seq<char>, delimiter: char, after: Seq<char>)
    requires
        is_delimiter(delimiter),
    ensures
        tokens(before + seq![delimiter] + after) == tokens(before) + tokens(after),
    decreases after.len(),
{
    let text = before + seq![delimiter] + after;
    if after.len() == 0 {
        assert(text.drop_last() =~= before);
        assert(tokens(before).push(Seq::empty()) =~= tokens(before) + tokens(after));
    } else {
        let shorter = after.drop_last();
        assert(text.drop_last() =~= before + seq![delimiter] + shorter);
        assert(text.last() == after.last());
        lemma_tokens_split(before, delimiter, shorter);
        lemma_tokens_hold_no_delimiter(shorter);
        let list = tokens(before) + tokens(shorter);
        if is_delimiter(after.last()) {
            assert(list.push(Seq::empty()) =~= tokens(before) + tokens(after));
        } else {
            assert(list.last() == tokens(shorter).last());
            assert(list.drop_last() =~= tokens(before) + tokens(shorter).drop_last());
            assert(list.drop_last().push(list.last().push(after.last())) =~= tokens(before)
                + tokens(after));
        }
    }
}

/// Texts without delimiters that are joined by one are the tokens of the
/// whole.
pub proof fn lemma_tokens_of_joined(parts: Seq<Seq<char>>, delimiter: char)
    requires
        parts.len() > 0,
        is_delimiter(delimiter),
        forall|k: int, i: int|
            0 <= k < parts.len() && 0 <= i < parts[k].len() ==> !is_delimiter(
                #[trigger] parts[k][i],
            ),
    ensures
        tokens(joined(parts, seq![delimiter])) == parts,
    decreases parts.len(),
{
    let last = parts.last();
    assert forall|i: int| 0 <= i < last.len() implies !is_delimiter(#[trigger] last[i]) by {
        assert(last[i] == parts[parts.len() - 1][i]);
    }
    lemma_single_token(last);
    if parts.len() == 1 {
        assert(parts =~= seq![last]);
    } else {
        let shorter = parts.drop_last();
        assert forall|k: int, i: int|
            0 <= k < shorter.len() && 0 <= i < shorter[k].len() implies !is_delimiter(
            #[trigger] shorter[k][i],
        ) by {
            assert(shorter[k][i] == parts[k][i]);
        }
        lemma_tokens_of_joined(shorter, delimiter);
        lemma_tokens_split(joined(shorter, seq![delimiter]), delimiter, last);
        assert(shorter + seq![last] =~= parts);
    }
}

/// The numeral of a byte is a token that denotes this byte, and holds no
/// delimiter.
pub proof fn lemma_numeral_value(b: u8)
    ensures
        token_value(decimal_digits(b as nat)) == Some(b),
        forall|i: int|
            0 <= i < decimal_digits(b as nat).len() ==> !is_delimiter(
                #[trigger] decimal_digits(b as nat)[i],
            ),
{
    reveal_with_fuel(decimal_digits, 3);
    reveal_with_fuel(digits_value, 4);
    let n = b as nat;
    let numeral = decimal_digits(n);
    assert(unsigned_part(numeral) == numeral);
    if n < 10 {
        assert(numeral =~= seq![digit_char(n)]);
        assert(numeral.drop_last() =~= Seq::<char>::empty());
    } else if n < 100 {
        assert(numeral =~= seq![digit_char(n / 10), digit_char(n % 10)]);
        assert(numeral.drop_last() =~= seq![digit_char(n / 10)]);
        assert(numeral.drop_last().drop_last() =~= Seq::<char>::empty());
    } else {
        assert(numeral =~= seq![digit_char(n / 100), digit_char(n / 10 % 10), digit_char(n % 10)]);
        assert(numeral.drop_last() =~= seq![digit_char(n / 100), digit_char(n / 10 % 10)]);
        assert(numeral.drop_last().drop_last() =~= seq![digit_char(n / 100)]);
        assert(numeral.drop_last().drop_last().drop_last() =~= Seq::<char>::empty());
    }
    assert(all_digits(numeral));
    assert(digits_value(numeral) == n);
}

} // verus!
