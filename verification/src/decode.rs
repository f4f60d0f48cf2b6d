//! The decoder: from bytes to a value tree.

use crate::grammar::{
    decimal_value, digit_run_end, failure, is_digit, lemma_decimal_grows, lemma_decimal_step,
    lemma_digit_run, spec_decode, spec_decode_bytes,
    spec_decode_entries, spec_decode_integer, spec_decode_items, spec_decode_value, DecodeError,
    DecodeErrorKind, COLON, DIGIT_NINE, DIGIT_ZERO, MINUS, TAG_DICTIONARY, TAG_INTEGER, TAG_LIST,
    TERMINATOR,
};
use crate::laws::{lemma_decode_failure_within, lemma_decode_well_formed};
use crate::value::{lemma_list_view, views_of, Bencode, BencodeValue, Dictionary};
use vstd::prelude::*;
use vstd::slice::{slice_subrange, slice_to_vec};

verus! {

/// The largest magnitude that an integer token may write: that of `i64::MIN`.
const MAGNITUDE_LIMIT: u64 = 0x8000_0000_0000_0000;

/// The index just past the run of digits that starts at `from`.
fn scan_digits(data: &[u8], from: usize) -> (end: usize)
    requires
        from <= data@.len(),
    ensures
        end == digit_run_end(data@, from as int),
        from <= end <= data@.len(),
{
    let mut end = from;
    while end < data.len() && DIGIT_ZERO <= data[end] && data[end] <= DIGIT_NINE
        invariant
            from <= end <= data@.len(),
            digit_run_end(data@, from as int) == digit_run_end(data@, end as int),
        decreases data@.len() - end,
    {
        end += 1;
    }
    end
}

/// Decodes the integer token that starts at `pos`.
fn decode_integer_at(data: &[u8], pos: usize) -> (r: Result<(i64, usize), DecodeError>)
    requires
        pos < data@.len(),
    ensures
        match r {
            Ok((n, end)) => spec_decode_integer(data@, pos as int) == Ok::<_, DecodeError>(
                (n as int, end as int),
            ),
            Err(e) => spec_decode_integer(data@, pos as int) == Err::<(int, int), _>(e),
        },
{
    let malformed = Err(DecodeError { kind: DecodeErrorKind::MalformedInteger, offset: pos });
    let len = data.len();
    let negative = pos + 1 < len && data[pos + 1] == MINUS;
    let start = if negative {
        pos + 2
    } else {
        pos + 1
    };
    let end = scan_digits(data, start);
    proof {
        lemma_digit_run(data@, start as int);
    }
    if end == start || end >= data.len() || data[end] != TERMINATOR {
        return malformed;
    }
    if data[start] == DIGIT_ZERO && (end != start + 1 || negative) {
        return malformed;
    }
    let mut magnitude: u64 = 0;
    let mut i = start;
    while i < end
        invariant
            start <= i <= end <= data@.len(),
            forall|k: int| start <= k < end ==> is_digit(#[trigger] data@[k]),
            magnitude == decimal_value(data@.subrange(start as int, i as int)),
            magnitude <= MAGNITUDE_LIMIT,
            malformed == Err::<(i64, usize), _>(
                DecodeError { kind: DecodeErrorKind::MalformedInteger, offset: pos },
            ),
            spec_decode_integer(data@, pos as int) is Ok ==> decimal_value(
                data@.subrange(start as int, end as int),
            ) <= MAGNITUDE_LIMIT,
        decreases end - i,
    {
        let digit = data[i] - DIGIT_ZERO;
        let next: u128 = magnitude as u128 * 10 + digit as u128;
        proof {
            lemma_decimal_step(data@, start as int, i as int);
            lemma_decimal_grows(data@, start as int, i as int + 1, end as int);
        }
        if next > MAGNITUDE_LIMIT as u128 {
            return malformed;
        }
        magnitude = next as u64;
        i += 1;
    }
    if negative {
        if magnitude == MAGNITUDE_LIMIT {
            Ok((i64::MIN, end + 1))
        } else {
            Ok((-(magnitude as i64), end + 1))
        }
    } else if magnitude == MAGNITUDE_LIMIT {
        malformed
    } else {
        Ok((magnitude as i64, end + 1))
    }
}

/// Decodes the byte-string token that starts at `pos`.
fn decode_bytes_at(data: &[u8], pos: usize) -> (r: Result<(Vec<u8>, usize), DecodeError>)
    requires
        pos < data@.len(),
    ensures
        match r {
            Ok((bytes, end)) => spec_decode_bytes(data@, pos as int) == Ok::<_, DecodeError>(
                (bytes@, end as int),
            ),
            Err(e) => spec_decode_bytes(data@, pos as int) == Err::<(Seq<u8>, int), _>(e),
        },
{
    let truncated = Err(DecodeError { kind: DecodeErrorKind::TruncatedString, offset: pos });
    let colon = scan_digits(data, pos);
    proof {
        lemma_digit_run(data@, pos as int);
    }
    if colon >= data.len() || data[colon] != COLON {
        return truncated;
    }
    let room = data.len() - colon - 1;
    let mut length: usize = 0;
    let mut i = pos;
    while i < colon
        invariant
            pos <= i <= colon < data@.len(),
            room == data@.len() - colon - 1,
            forall|k: int| pos <= k < colon ==> is_digit(#[trigger] data@[k]),
            length == decimal_value(data@.subrange(pos as int, i as int)),
            length <= room,
            spec_decode_bytes(data@, pos as int) is Ok ==> decimal_value(
                data@.subrange(pos as int, colon as int),
            ) <= room,
            truncated == Err::<(Vec<u8>, usize), _>(
                DecodeError { kind: DecodeErrorKind::TruncatedString, offset: pos },
            ),
        decreases colon - i,
    {
        let digit = data[i] - DIGIT_ZERO;
        let next: u128 = length as u128 * 10 + digit as u128;
        proof {
            lemma_decimal_step(data@, pos as int, i as int);
            lemma_decimal_grows(data@, pos as int, i as int + 1, colon as int);
        }
        if next > room as u128 {
            return truncated;
        }
        length = next as usize;
        i += 1;
    }
    let start = colon + 1;
    let bytes = slice_to_vec(slice_subrange(data, start, start + length));
    Ok((bytes, start + length))
}

/// The mathematical reading of what `decode_value_at` returns.
pub open spec fn decoded_at(r: Result<(BencodeValue, usize), DecodeError>) -> Result<
    (Bencode, int),
    DecodeError,
> {
    match r {
        Ok((value, end)) => Ok((value@, end as int)),
        Err(e) => Err(e),
    }
}

/// The mathematical reading of what `decode_bencoded_value` returns.
pub open spec fn decoded(r: Result<(BencodeValue, &[u8]), DecodeError>) -> Result<
    (Bencode, Seq<u8>),
    DecodeError,
> {
    match r {
        Ok((value, rest)) => Ok((value@, rest@)),
        Err(e) => Err(e),
    }
}

/// Decodes the value that starts at offset `pos` of `data`, and returns it
/// with the offset just past it.
///
/// The call recurses once for each level of nesting in the input.
pub fn decode_value_at(data: &[u8], pos: usize) -> (r: Result<(BencodeValue, usize), DecodeError>)
    ensures
        decoded_at(r) == spec_decode_value(data@, pos as int),
        r matches Ok((value, end)) ==> pos < end <= data@.len() && value@.wf(),
    decreases data@.len() - pos,
{
    proof {
        lemma_decode_well_formed(data@, pos as int);
    }
    if pos >= data.len() {
        return Err(DecodeError { kind: DecodeErrorKind::UnrecognizedTag, offset: pos });
    }
    let tag = data[pos];
    if tag == TAG_INTEGER {
        match decode_integer_at(data, pos) {
            Ok((n, end)) => {
                proof {
                    lemma_digit_run(data@, pos as int + 1);
                    lemma_digit_run(data@, pos as int + 2);
                }
                Ok((BencodeValue::Integer(n), end))
            },
            Err(e) => Err(e),
        }
    } else if DIGIT_ZERO <= tag && tag <= DIGIT_NINE {
        match decode_bytes_at(data, pos) {
            Ok((bytes, end)) => {
                proof {
                    lemma_digit_run(data@, pos as int);
                }
                Ok((BencodeValue::ByteString(bytes), end))
            },
            Err(e) => Err(e),
        }
    } else if tag == TAG_LIST {
        let mut items: Vec<BencodeValue> = Vec::new();
        let mut at = pos + 1;
        assert(views_of(items@) =~= Seq::<Bencode>::empty());
        loop
            invariant
                pos < at <= data@.len(),
                data@[pos as int] == TAG_LIST,
                spec_decode_items(data@, pos as int, at as int, views_of(items@))
                    == spec_decode_items(data@, pos as int, pos + 1, Seq::empty()),
            decreases data@.len() - at,
        {
            if at >= data.len() {
                return Err(DecodeError { kind: DecodeErrorKind::UnterminatedList, offset: pos });
            }
            if data[at] == TERMINATOR {
                proof {
                    lemma_list_view(items);
                    lemma_decode_well_formed(data@, pos as int);
                }
                return Ok((BencodeValue::List(items), at + 1));
            }
            match decode_value_at(data, at) {
                Ok((item, next)) => {
                    assert(views_of(items@.push(item)) =~= views_of(items@).push(item@));
                    items.push(item);
                    at = next;
                },
                Err(e) => {
                    return Err(e);
                },
            }
        }
    } else if tag == TAG_DICTIONARY {
        let mut entries = Dictionary::new();
        let mut at = pos + 1;
        loop
            invariant
                pos < at <= data@.len(),
                data@[pos as int] == TAG_DICTIONARY,
                spec_decode_entries(data@, pos as int, at as int, entries@) == spec_decode_entries(
                    data@,
                    pos as int,
                    pos + 1,
                    Seq::empty(),
                ),
            decreases data@.len() - at,
        {
            if at >= data.len() {
                return Err(
                    DecodeError { kind: DecodeErrorKind::UnterminatedDictionary, offset: pos },
                );
            }
            if data[at] == TERMINATOR {
                proof {
                    lemma_decode_well_formed(data@, pos as int);
                }
                return Ok((BencodeValue::Dictionary(entries), at + 1));
            }
            match decode_value_at(data, at) {
                Ok((BencodeValue::ByteString(key), mid)) => {
                    match decode_value_at(data, mid) {
                        Ok((value, next)) => {
                            entries.insert(key, value);
                            at = next;
                        },
                        Err(e) => {
                            return Err(e);
                        },
                    }
                },
                Ok(_) => {
                    return Err(
                        DecodeError { kind: DecodeErrorKind::NonStringDictionaryKey, offset: at },
                    );
                },
                Err(e) => {
                    return Err(e);
                },
            }
        }
    } else {
        Err(DecodeError { kind: DecodeErrorKind::UnrecognizedTag, offset: pos })
    }
}

/// Decodes the value that `encoded_value` starts with, and returns it with
/// the bytes that follow it.
///
/// Exactly one value is decoded: what follows it is handed back untouched,
/// for the caller to go on with.
pub fn decode_bencoded_value(encoded_value: &[u8]) -> (r: Result<
    (BencodeValue, &[u8]),
    DecodeError,
>)
    ensures
        decoded(r) == spec_decode(encoded_value@),
        r matches Ok((value, rest)) ==> value@.wf() && rest@.len() < encoded_value@.len(),
        r matches Err(e) ==> e.offset <= encoded_value@.len(),
{
    let length = encoded_value.len();
    proof {
        lemma_decode_failure_within(encoded_value@, 0);
    }
    match decode_value_at(encoded_value, 0) {
        Ok((value, end)) => {
            let rest = slice_subrange(encoded_value, end, length);
            Ok((value, rest))
        },
        Err(e) => Err(e),
    }
}

/// Decoding depends on the bytes alone: two results of decoding buffers
/// that hold the same bytes, each as `decode_bencoded_value` promises it,
/// are the same failure, or are values with the same model and equal
/// remainders.
pub proof fn lemma_decode_deterministic(
    first_input: Seq<u8>,
    first: Result<(BencodeValue, &[u8]), DecodeError>,
    second_input: Seq<u8>,
    second: Result<(BencodeValue, &[u8]), DecodeError>,
)
    requires
        first_input =~= second_input,
        decoded(first) == spec_decode(first_input),
        decoded(second) == spec_decode(second_input),
    ensures
        decoded(first) == decoded(second),
        first is Err ==> first == second,
        first matches Ok((a, rest)) ==> second matches Ok((b, rest2)) && a@ == b@ && rest@ == rest2@,
{
}

} // verus!
