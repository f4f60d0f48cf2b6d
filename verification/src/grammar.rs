//! The bencode grammar, as mathematics: what decoding a byte sequence yields,
//! and the canonical encoding of a value.

use crate::value::{dict_insert, Bencode};
use vstd::prelude::*;

verus! {

/// `0`, the first ASCII digit.
pub const DIGIT_ZERO: u8 = 0x30;

/// `9`, the last ASCII digit.
pub const DIGIT_NINE: u8 = 0x39;

/// `-`, the sign of a negative integer.
pub const MINUS: u8 = 0x2d;

/// `:`, which parts a byte string's length from its payload.
pub const COLON: u8 = 0x3a;

/// `i`, which opens an integer.
pub const TAG_INTEGER: u8 = 0x69;

/// `l`, which opens a list.
pub const TAG_LIST: u8 = 0x6c;

/// `d`, which opens a dictionary.
pub const TAG_DICTIONARY: u8 = 0x64;

/// `e`, which closes an integer, a list or a dictionary.
pub const TERMINATOR: u8 = 0x65;

/// What went wrong while decoding.
#[derive(Debug, Clone, Copy, PartialEq, Eq, Structural)]
pub enum DecodeErrorKind {
    /// A value was expected and the byte found there (or the end of the
    /// input) starts none.
    UnrecognizedTag,
    /// An integer token that is not `i`, an optional `-`, decimal digits
    /// without a leading zero, `e`; or one that is negative zero, or does not
    /// fit a signed 64-bit integer.
    MalformedInteger,
    /// A byte-string token whose length prefix is not followed by `:` and
    /// that many bytes.
    TruncatedString,
    /// The input ended where a list's next item or its `e` was due.
    UnterminatedList,
    /// The input ended where a dictionary's next key or its `e` was due.
    UnterminatedDictionary,
    /// A dictionary key that is not a byte string.
    NonStringDictionaryKey,
}

/// A decoding failure: its kind, and the offset in the input of what it is
/// about. That is the place at which a value was due, the first byte of the
/// integer, the byte string or the key at fault, or the `l` or `d` of the
/// list or dictionary that was left open.
#[derive(Debug, Clone, Copy, PartialEq, Eq, Structural)]
pub struct DecodeError {
    pub kind: DecodeErrorKind,
    pub offset: usize,
}

/// The failure of kind `kind` at offset `pos`.
pub open spec fn failure(kind: DecodeErrorKind, pos: int) -> DecodeError {
    DecodeError { kind, offset: pos as usize }
}

/// `b` is an ASCII digit.
pub open spec fn is_digit(b: u8) -> bool {
    DIGIT_ZERO <= b <= DIGIT_NINE
}

/// The index just past the longest run of ASCII digits that starts at `from`.
pub open spec fn digit_run_end(s: Seq<u8>, from: int) -> int
    decreases s.len() - from,
{
    if 0 <= from < s.len() && is_digit(s[from]) {
        digit_run_end(s, from + 1)
    } else {
        from
    }
}

/// The number that the ASCII digits `digits` write in base ten.
pub open spec fn decimal_value(digits: Seq<u8>) -> nat
    decreases digits.len(),
{
    if digits.len() == 0 {
        0
    } else {
        decimal_value(digits.drop_last()) * 10 + (digits.last() - DIGIT_ZERO) as nat
    }
}

/// A digit run ends within the input, holds digits only, and stops at the
/// first byte that is none.
pub proof fn lemma_digit_run(s: Seq<u8>, from: int)
    requires
        0 <= from <= s.len(),
    ensures
        from <= digit_run_end(s, from) <= s.len(),
        forall|i: int| from <= i < digit_run_end(s, from) ==> is_digit(#[trigger] s[i]),
        digit_run_end(s, from) < s.len() ==> !is_digit(s[digit_run_end(s, from)]),
    decreases s.len() - from,
{
    if from < s.len() && is_digit(s[from]) {
        lemma_digit_run(s, from + 1);
    }
}

/// One more digit multiplies the number by ten and adds the digit.
pub proof fn lemma_decimal_step(s: Seq<u8>, start: int, i: int)
    requires
        0 <= start <= i < s.len(),
    ensures
        decimal_value(s.subrange(start, i + 1)) == decimal_value(s.subrange(start, i)) * 10 + (s[i]
            - DIGIT_ZERO) as nat,
{
    assert(s.subrange(start, i + 1).drop_last() =~= s.subrange(start, i));
}

/// A longer run of digits writes a number that is no smaller.
pub proof fn lemma_decimal_grows(s: Seq<u8>, start: int, i: int, j: int)
    requires
        0 <= start <= i <= j <= s.len(),
        forall|k: int| start <= k < j ==> is_digit(#[trigger] s[k]),
    ensures
        decimal_value(s.subrange(start, i)) <= decimal_value(s.subrange(start, j)),
    decreases j - i,
{
    if i < j {
        lemma_decimal_grows(s, start, i, j - 1);
        lemma_decimal_step(s, start, j - 1);
    }
}

/// The integer token that starts at `pos` (where `s` holds `i`): its value
/// and the index just past its `e`.
///
/// The token is `i`, an optional `-`, one or more digits, `e`. A leading
/// zero is accepted only in `i0e`, so that each integer has one spelling;
/// `i-0e` is refused.
pub open spec fn spec_decode_integer(s: Seq<u8>, pos: int) -> Result<(int, int), DecodeError> {
    let negative = pos + 1 < s.len() && s[pos + 1] == MINUS;
    let start = if negative {
        pos + 2
    } else {
        pos + 1
    };
    let end = digit_run_end(s, start);
    let magnitude = decimal_value(s.subrange(start, end));
    let value = if negative {
        -magnitude
    } else {
        magnitude as int
    };
    if start < end < s.len() && s[end] == TERMINATOR && (s[start] != DIGIT_ZERO || (end == start + 1
        && !negative)) && i64::MIN <= value <= i64::MAX {
        Ok((value, end + 1))
    } else {
        Err(failure(DecodeErrorKind::MalformedInteger, pos))
    }
}

/// The byte-string token that starts at `pos` (where `s` holds a digit): its
/// payload and the index just past it.
///
/// The token is a run of digits, `:`, and as many bytes as the digits say.
pub open spec fn spec_decode_bytes(s: Seq<u8>, pos: int) -> Result<(Seq<u8>, int), DecodeError> {
    let colon = digit_run_end(s, pos);
    let length = decimal_value(s.subrange(pos, colon));
    if colon < s.len() && s[colon] == COLON && colon + 1 + length <= s.len() {
        Ok((s.subrange(colon + 1, colon + 1 + length), colon + 1 + length))
    } else {
        Err(failure(DecodeErrorKind::TruncatedString, pos))
    }
}

/// The value that starts at `pos`, and the index just past it.
pub open spec fn spec_decode_value(s: Seq<u8>, pos: int) -> Result<(Bencode, int), DecodeError>
    decreases s.len() - pos, 0int,
{
    if pos < 0 || pos >= s.len() {
        Err(failure(DecodeErrorKind::UnrecognizedTag, pos))
    } else if s[pos] == TAG_INTEGER {
        match spec_decode_integer(s, pos) {
            Ok((n, end)) => Ok((Bencode::Integer(n), end)),
            Err(e) => Err(e),
        }
    } else if is_digit(s[pos]) {
        match spec_decode_bytes(s, pos) {
            Ok((bytes, end)) => Ok((Bencode::ByteString(bytes), end)),
            Err(e) => Err(e),
        }
    } else if s[pos] == TAG_LIST {
        match spec_decode_items(s, pos, pos + 1, Seq::empty()) {
            Ok((items, end)) => Ok((Bencode::List(items), end)),
            Err(e) => Err(e),
        }
    } else if s[pos] == TAG_DICTIONARY {
        match spec_decode_entries(s, pos, pos + 1, Seq::empty()) {
            Ok((entries, end)) => Ok((Bencode::Dictionary(entries), end)),
            Err(e) => Err(e),
        }
    } else {
        Err(failure(DecodeErrorKind::UnrecognizedTag, pos))
    }
}

/// The rest of the list opened at `open`, from `pos` on, after the items
/// `done`: all its items, and the index just past its `e`.
///
/// A value always ends after it starts (see `lemma_decode_advances`); the
/// test on `next` is there for this definition's termination only.
pub open spec fn spec_decode_items(s: Seq<u8>, open: int, pos: int, done: Seq<Bencode>) -> Result<
    (Seq<Bencode>, int),
    DecodeError,
>
    decreases s.len() - pos, 1int,
{
    if pos < 0 || pos >= s.len() {
        Err(failure(DecodeErrorKind::UnterminatedList, open))
    } else if s[pos] == TERMINATOR {
        Ok((done, pos + 1))
    } else {
        match spec_decode_value(s, pos) {
            Ok((item, next)) => if pos < next <= s.len() {
                spec_decode_items(s, open, next, done.push(item))
            } else {
                Err(failure(DecodeErrorKind::UnterminatedList, open))
            },
            Err(e) => Err(e),
        }
    }
}

/// The rest of the dictionary opened at `open`, from `pos` on, after the
/// entries `done`: all its entries, and the index just past its `e`.
///
/// Each entry is a key, which must decode to a byte string, and a value. A
/// key that occurs again rebinds it. The tests on `mid` and `next` are there
/// for this definition's termination only.
pub open spec fn spec_decode_entries(
    s: Seq<u8>,
    open: int,
    pos: int,
    done: Seq<(Seq<u8>, Bencode)>,
) -> Result<(Seq<(Seq<u8>, Bencode)>, int), DecodeError>
    decreases s.len() - pos, 1int,
{
    if pos < 0 || pos >= s.len() {
        Err(failure(DecodeErrorKind::UnterminatedDictionary, open))
    } else if s[pos] == TERMINATOR {
        Ok((done, pos + 1))
    } else {
        match spec_decode_value(s, pos) {
            Ok((Bencode::ByteString(key), mid)) => if pos < mid <= s.len() {
                match spec_decode_value(s, mid) {
                    Ok((value, next)) => if mid < next <= s.len() {
                        spec_decode_entries(s, open, next, dict_insert(done, key, value))
                    } else {
                        Err(failure(DecodeErrorKind::UnterminatedDictionary, open))
                    },
                    Err(e) => Err(e),
                }
            } else {
                Err(failure(DecodeErrorKind::UnterminatedDictionary, open))
            },
            Ok(_) => Err(failure(DecodeErrorKind::NonStringDictionaryKey, pos)),
            Err(e) => Err(e),
        }
    }
}

/// The ASCII digits that write `n` in base ten, without a leading zero
/// (`0` itself is written `0`).
pub open spec fn decimal_digits(n: nat) -> Seq<u8>
    decreases n,
{
    if n < 10 {
        seq![(DIGIT_ZERO + n) as u8]
    } else {
        decimal_digits(n / 10).push((DIGIT_ZERO + n % 10) as u8)
    }
}

/// The token of the integer `n`: `i`, its decimal spelling, `e`.
pub open spec fn encode_integer(n: int) -> Seq<u8> {
    if n < 0 {
        seq![TAG_INTEGER, MINUS] + decimal_digits((-n) as nat) + seq![TERMINATOR]
    } else {
        seq![TAG_INTEGER] + decimal_digits(n as nat) + seq![TERMINATOR]
    }
}

/// The token of the byte string `bytes`: its length, `:`, the bytes.
pub open spec fn encode_bytes(bytes: Seq<u8>) -> Seq<u8> {
    decimal_digits(bytes.len()) + seq![COLON] + bytes
}

/// The canonical encoding of `value`.
pub open spec fn encode(value: Bencode) -> Seq<u8>
    decreases value, 0int,
{
    match value {
        Bencode::Integer(n) => encode_integer(n),
        Bencode::ByteString(bytes) => encode_bytes(bytes),
        Bencode::List(items) => seq![TAG_LIST] + encode_items(items, 0) + seq![TERMINATOR],
        Bencode::Dictionary(entries) => seq![TAG_DICTIONARY] + encode_entries(entries, 0)
            + seq![TERMINATOR],
    }
}

/// The encodings of the items of `items` from index `from` on, one after
/// the other.
pub open spec fn encode_items(items: Seq<Bencode>, from: int) -> Seq<u8>
    decreases items, items.len() - from,
{
    if 0 <= from < items.len() {
        encode(items[from]) + encode_items(items, from + 1)
    } else {
        Seq::empty()
    }
}

/// The encodings of the entries of `entries` from index `from` on, each a
/// key and its value, one after the other.
pub open spec fn encode_entries(entries: Seq<(Seq<u8>, Bencode)>, from: int) -> Seq<u8>
    decreases entries, entries.len() - from,
{
    if 0 <= from < entries.len() {
        encode_bytes(entries[from].0) + encode(entries[from].1) + encode_entries(entries, from + 1)
    } else {
        Seq::empty()
    }
}

/// What decoding `s` yields: the value that `s` starts with and the bytes
/// that follow it, or the first failure met.
pub open spec fn spec_decode(s: Seq<u8>) -> Result<(Bencode, Seq<u8>), DecodeError> {
    match spec_decode_value(s, 0) {
        Ok((value, end)) => Ok((value, s.subrange(end, s.len() as int))),
        Err(e) => Err(e),
    }
}

} // verus!
