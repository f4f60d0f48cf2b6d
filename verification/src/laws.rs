//! What holds of decoding whatever the input: a decoded value is well
//! formed and ends after it starts, it is self-delimiting, and decoding
//! undoes encoding.

use crate::grammar::{
    decimal_digits, decimal_value, digit_run_end, encode, encode_bytes, encode_entries,
    encode_integer, encode_items, is_digit, lemma_digit_run, spec_decode, spec_decode_bytes,
    spec_decode_entries, spec_decode_integer, spec_decode_items, spec_decode_value, DecodeError,
    COLON, DIGIT_ZERO, MINUS, TAG_DICTIONARY, TAG_INTEGER, TAG_LIST, TERMINATOR,
};
use crate::value::{
    dict_insert, keys_sorted, lemma_insert_keeps_wf, lemma_insertion_index,
    Bencode,
};
use vstd::prelude::*;

verus! {

/// The values of `entries` are all well formed.
pub open spec fn values_wf(entries: Seq<(Seq<u8>, Bencode)>) -> bool {
    forall|i: int| 0 <= i < entries.len() ==> (#[trigger] entries[i]).1.wf()
}

/// The items of `items` are all well formed.
pub open spec fn items_wf(items: Seq<Bencode>) -> bool {
    forall|i: int| 0 <= i < items.len() ==> (#[trigger] items[i]).wf()
}

proof fn lemma_value_sound(s: Seq<u8>, pos: int)
    ensures
        spec_decode_value(s, pos) matches Ok((value, end)) ==> 0 <= pos < end <= s.len()
            && value.wf(),
    decreases s.len() - pos, 0int,
{
    if 0 <= pos < s.len() {
        if s[pos] == TAG_INTEGER {
            lemma_digit_run(s, pos + 1);
            if pos + 2 <= s.len() {
                lemma_digit_run(s, pos + 2);
            }
        } else if is_digit(s[pos]) {
            lemma_digit_run(s, pos);
        } else if s[pos] == TAG_LIST {
            lemma_items_sound(s, pos, pos + 1, Seq::empty());
        } else if s[pos] == TAG_DICTIONARY {
            lemma_entries_sound(s, pos, pos + 1, Seq::empty());
        }
    }
}

proof fn lemma_items_sound(s: Seq<u8>, open: int, pos: int, done: Seq<Bencode>)
    ensures
        spec_decode_items(s, open, pos, done) matches Ok((items, end)) ==> 0 <= pos < end
            <= s.len() && (items_wf(done) ==> items_wf(items)),
    decreases s.len() - pos, 1int,
{
    if 0 <= pos < s.len() && s[pos] != TERMINATOR {
        lemma_value_sound(s, pos);
        match spec_decode_value(s, pos) {
            Ok((item, next)) => {
                lemma_items_sound(s, open, next, done.push(item));
            },
            Err(_) => {},
        }
    }
}

proof fn lemma_entries_sound(s: Seq<u8>, open: int, pos: int, done: Seq<(Seq<u8>, Bencode)>)
    ensures
        spec_decode_entries(s, open, pos, done) matches Ok((entries, end)) ==> 0 <= pos < end
            <= s.len() && (Bencode::Dictionary(done).wf() ==> Bencode::Dictionary(entries).wf()),
    decreases s.len() - pos, 1int,
{
    if 0 <= pos < s.len() && s[pos] != TERMINATOR {
        lemma_value_sound(s, pos);
        match spec_decode_value(s, pos) {
            Ok((Bencode::ByteString(key), mid)) => {
                lemma_value_sound(s, mid);
                match spec_decode_value(s, mid) {
                    Ok((value, next)) => {
                        if Bencode::Dictionary(done).wf() {
                            lemma_insert_keeps_wf(done, key, value);
                        }
                        lemma_entries_sound(s, open, next, dict_insert(done, key, value));
                    },
                    Err(_) => {},
                }
            },
            _ => {},
        }
    }
}

/// `s` holds the bytes `t` from index `pos` on.
pub open spec fn occurs_at(s: Seq<u8>, pos: int, t: Seq<u8>) -> bool {
    0 <= pos && pos + t.len() <= s.len() && s.subrange(pos, pos + t.len()) == t
}

proof fn lemma_occurs_index(s: Seq<u8>, pos: int, t: Seq<u8>, k: int)
    requires
        occurs_at(s, pos, t),
        0 <= k < t.len(),
    ensures
        s[pos + k] == t[k],
{
}

proof fn lemma_occurs_split(s: Seq<u8>, pos: int, a: Seq<u8>, b: Seq<u8>)
    requires
        occurs_at(s, pos, a + b),
    ensures
        occurs_at(s, pos, a),
        occurs_at(s, pos + a.len(), b),
{
    let whole = s.subrange(pos, pos + (a + b).len());
    assert(s.subrange(pos, pos + a.len()) =~= whole.subrange(0, a.len() as int));
    assert(whole.subrange(0, a.len() as int) =~= a);
    assert(s.subrange(pos + a.len(), pos + a.len() + b.len()) =~= whole.subrange(
        a.len() as int,
        (a + b).len() as int,
    ));
    assert(whole.subrange(a.len() as int, (a + b).len() as int) =~= b);
}

/// The decimal spelling of a number is made of digits, starts with `0` only
/// for zero itself, and writes that number.
proof fn lemma_decimal_digits(n: nat)
    ensures
        decimal_digits(n).len() >= 1,
        forall|i: int| 0 <= i < decimal_digits(n).len() ==> is_digit(#[trigger] decimal_digits(n)[i]),
        decimal_digits(n)[0] == DIGIT_ZERO ==> n == 0 && decimal_digits(n).len() == 1,
        decimal_value(decimal_digits(n)) == n,
    decreases n,
{
    if n < 10 {
        let d = decimal_digits(n);
        assert(decimal_value(d.drop_last()) == 0);
    } else {
        lemma_decimal_digits(n / 10);
        let prefix = decimal_digits(n / 10);
        let last = (DIGIT_ZERO + n % 10) as u8;
        assert(prefix.push(last).drop_last() =~= prefix);
    }
}

proof fn lemma_digit_run_over(s: Seq<u8>, start: int, k: int)
    requires
        0 <= start,
        0 <= k,
        start + k <= s.len(),
        forall|i: int| start <= i < start + k ==> is_digit(#[trigger] s[i]),
        start + k == s.len() || !is_digit(s[start + k]),
    ensures
        digit_run_end(s, start) == start + k,
    decreases k,
{
    if k > 0 {
        lemma_digit_run_over(s, start + 1, k - 1);
    }
}

/// The digits `digits` stand in `s` from `start` on, followed by a byte that
/// is no digit: the run of digits there is `digits`.
proof fn lemma_digits_embedded(s: Seq<u8>, start: int, n: nat, after: u8)
    requires
        occurs_at(s, start, decimal_digits(n).push(after)),
        !is_digit(after),
    ensures
        digit_run_end(s, start) == start + decimal_digits(n).len(),
        s.subrange(start, start + decimal_digits(n).len()) == decimal_digits(n),
        s[start + decimal_digits(n).len()] == after,
        s[start] == decimal_digits(n)[0],
{
    let digits = decimal_digits(n);
    lemma_decimal_digits(n);
    assert(digits.push(after) =~= digits + seq![after]);
    lemma_occurs_split(s, start, digits, seq![after]);
    lemma_occurs_index(s, start + digits.len(), seq![after], 0);
    lemma_occurs_index(s, start, digits, 0);
    assert forall|i: int| start <= i < start + digits.len() implies is_digit(#[trigger] s[i]) by {
        lemma_occurs_index(s, start, digits, i - start);
    }
    lemma_digit_run_over(s, start, digits.len() as int);
}

proof fn lemma_roundtrip_integer(s: Seq<u8>, pos: int, n: int)
    requires
        i64::MIN <= n <= i64::MAX,
        occurs_at(s, pos, encode_integer(n)),
    ensures
        spec_decode_integer(s, pos) == Ok::<_, DecodeError>((n, pos + encode_integer(n).len())),
{
    let magnitude: nat = if n < 0 {
        (-n) as nat
    } else {
        n as nat
    };
    let digits = decimal_digits(magnitude);
    lemma_decimal_digits(magnitude);
    if n < 0 {
        let head = seq![TAG_INTEGER, MINUS];
        assert(encode_integer(n) =~= head + digits.push(TERMINATOR));
        lemma_occurs_split(s, pos, head, digits.push(TERMINATOR));
        lemma_occurs_index(s, pos, head, 1);
        lemma_digits_embedded(s, pos + 2, magnitude, TERMINATOR);
    } else {
        let head = seq![TAG_INTEGER];
        assert(encode_integer(n) =~= head + digits.push(TERMINATOR));
        lemma_occurs_split(s, pos, head, digits.push(TERMINATOR));
        lemma_digits_embedded(s, pos + 1, magnitude, TERMINATOR);
    }
}

proof fn lemma_roundtrip_bytes(s: Seq<u8>, pos: int, bytes: Seq<u8>)
    requires
        occurs_at(s, pos, encode_bytes(bytes)),
    ensures
        spec_decode_bytes(s, pos) == Ok::<_, DecodeError>((bytes, pos + encode_bytes(bytes).len())),
        is_digit(s[pos]),
{
    let digits = decimal_digits(bytes.len());
    lemma_decimal_digits(bytes.len());
    assert(encode_bytes(bytes) =~= digits.push(COLON) + bytes);
    lemma_occurs_split(s, pos, digits.push(COLON), bytes);
    lemma_digits_embedded(s, pos, bytes.len(), COLON);
}

/// An encoding starts with the byte that tells its kind, which is never `e`.
proof fn lemma_encode_first(value: Bencode)
    ensures
        encode(value).len() >= 1,
        encode(value)[0] != TERMINATOR,
{
    match value {
        Bencode::ByteString(bytes) => {
            lemma_decimal_digits(bytes.len());
        },
        _ => {},
    }
}

/// Binding a key that sorts after every key present appends the entry.
proof fn lemma_insert_last(entries: Seq<(Seq<u8>, Bencode)>, upto: int)
    requires
        keys_sorted(entries),
        0 <= upto < entries.len(),
    ensures
        dict_insert(entries.take(upto), entries[upto].0, entries[upto].1) == entries.take(upto + 1),
{
    // each key before `upto` sorts before the key there: the new entry goes last
    lemma_insertion_index(entries.take(upto), entries[upto].0, 0);
}

proof fn lemma_roundtrip_value(s: Seq<u8>, pos: int, value: Bencode)
    requires
        value.wf(),
        occurs_at(s, pos, encode(value)),
    ensures
        spec_decode_value(s, pos) == Ok::<_, DecodeError>((value, pos + encode(value).len())),
    decreases value, 0int,
{
    lemma_encode_first(value);
    lemma_occurs_index(s, pos, encode(value), 0);
    match value {
        Bencode::Integer(n) => {
            lemma_roundtrip_integer(s, pos, n);
        },
        Bencode::ByteString(bytes) => {
            lemma_roundtrip_bytes(s, pos, bytes);
        },
        Bencode::List(items) => {
            let body = encode_items(items, 0) + seq![TERMINATOR];
            assert(encode(value) =~= seq![TAG_LIST] + body);
            lemma_occurs_split(s, pos, seq![TAG_LIST], body);
            assert(items.take(0) =~= Seq::<Bencode>::empty());
            lemma_roundtrip_items(s, pos, pos + 1, items, 0);
        },
        Bencode::Dictionary(entries) => {
            let body = encode_entries(entries, 0) + seq![TERMINATOR];
            assert(encode(value) =~= seq![TAG_DICTIONARY] + body);
            lemma_occurs_split(s, pos, seq![TAG_DICTIONARY], body);
            assert(entries.take(0) =~= Seq::<(Seq<u8>, Bencode)>::empty());
            lemma_roundtrip_entries(s, pos, pos + 1, entries, 0);
        },
    }
}

proof fn lemma_roundtrip_items(s: Seq<u8>, open: int, pos: int, items: Seq<Bencode>, from: int)
    requires
        items_wf(items),
        0 <= from <= items.len(),
        occurs_at(s, pos, encode_items(items, from) + seq![TERMINATOR]),
    ensures
        spec_decode_items(s, open, pos, items.take(from)) == Ok::<_, DecodeError>(
            (items, pos + encode_items(items, from).len() + 1),
        ),
    decreases items, items.len() - from,
{
    let body = encode_items(items, from) + seq![TERMINATOR];
    lemma_occurs_index(s, pos, body, 0);
    if from == items.len() {
        assert(items.take(from) =~= items);
    } else {
        let item = items[from];
        let tail = encode_items(items, from + 1) + seq![TERMINATOR];
        assert(body =~= encode(item) + tail);
        lemma_occurs_split(s, pos, encode(item), tail);
        lemma_encode_first(item);
        lemma_roundtrip_value(s, pos, item);
        assert(items.take(from).push(item) =~= items.take(from + 1));
        lemma_roundtrip_items(s, open, pos + encode(item).len(), items, from + 1);
    }
}

proof fn lemma_roundtrip_entries(
    s: Seq<u8>,
    open: int,
    pos: int,
    entries: Seq<(Seq<u8>, Bencode)>,
    from: int,
)
    requires
        keys_sorted(entries),
        values_wf(entries),
        0 <= from <= entries.len(),
        occurs_at(s, pos, encode_entries(entries, from) + seq![TERMINATOR]),
    ensures
        spec_decode_entries(s, open, pos, entries.take(from)) == Ok::<_, DecodeError>(
            (entries, pos + encode_entries(entries, from).len() + 1),
        ),
    decreases entries, entries.len() - from,
{
    let body = encode_entries(entries, from) + seq![TERMINATOR];
    lemma_occurs_index(s, pos, body, 0);
    if from == entries.len() {
        assert(entries.take(from) =~= entries);
    } else {
        let key = entries[from].0;
        let value = entries[from].1;
        let tail = encode_entries(entries, from + 1) + seq![TERMINATOR];
        assert(body =~= encode_bytes(key) + (encode(value) + tail));
        lemma_occurs_split(s, pos, encode_bytes(key), encode(value) + tail);
        let mid = pos + encode_bytes(key).len();
        lemma_occurs_split(s, mid, encode(value), tail);
        lemma_roundtrip_bytes(s, pos, key);
        assert(spec_decode_value(s, pos) == Ok::<_, DecodeError>((Bencode::ByteString(key), mid)));
        lemma_encode_first(value);
        lemma_roundtrip_value(s, mid, value);
        lemma_insert_last(entries, from);
        lemma_roundtrip_entries(s, open, mid + encode(value).len(), entries, from + 1);
    }
}

/// Decoding undoes encoding: the canonical encoding of a well-formed value,
/// followed by any bytes at all, decodes to that value and leaves exactly
/// those bytes.
pub proof fn lemma_decode_encode(value: Bencode, rest: Seq<u8>)
    requires
        value.wf(),
    ensures
        spec_decode(encode(value) + rest) == Ok::<_, DecodeError>((value, rest)),
{
    let s = encode(value) + rest;
    assert(s.subrange(0, encode(value).len() as int) =~= encode(value));
    lemma_roundtrip_value(s, 0, value);
    assert(s.subrange(encode(value).len() as int, s.len() as int) =~= rest);
}

/// `s` and `t` hold the same bytes from index `from` up to index `to`.
pub open spec fn agree(s: Seq<u8>, t: Seq<u8>, from: int, to: int) -> bool {
    to <= s.len() && to <= t.len() && forall|i: int| from <= i < to ==> s[i] == t[i]
}

proof fn lemma_digits_local(s: Seq<u8>, t: Seq<u8>, start: int, to: int)
    requires
        0 <= start <= digit_run_end(s, start) < to,
        agree(s, t, start, to),
    ensures
        digit_run_end(t, start) == digit_run_end(s, start),
        t.subrange(start, digit_run_end(t, start)) == s.subrange(start, digit_run_end(s, start)),
{
    let end = digit_run_end(s, start);
    lemma_digit_run(s, start);
    assert forall|i: int| start <= i < end implies is_digit(#[trigger] t[i]) by {
        assert(t[i] == s[i]);
    }
    lemma_digit_run_over(t, start, end - start);
}

proof fn lemma_value_local(s: Seq<u8>, t: Seq<u8>, pos: int)
    requires
        spec_decode_value(s, pos) matches Ok((_, end)) && agree(s, t, pos, end),
    ensures
        spec_decode_value(t, pos) == spec_decode_value(s, pos),
    decreases s.len() - pos, 0int,
{
    lemma_value_sound(s, pos);
    let end = spec_decode_value(s, pos)->Ok_0.1;
    if s[pos] == TAG_INTEGER {
        let negative = pos + 1 < s.len() && s[pos + 1] == MINUS;
        let start = if negative {
            pos + 2
        } else {
            pos + 1
        };
        lemma_digit_run(s, start);
        lemma_digits_local(s, t, start, end);
    } else if is_digit(s[pos]) {
        let colon = digit_run_end(s, pos);
        lemma_digit_run(s, pos);
        lemma_digits_local(s, t, pos, end);
        assert(t.subrange(colon + 1, end) =~= s.subrange(colon + 1, end));
    } else if s[pos] == TAG_LIST {
        lemma_items_local(s, t, pos, pos + 1, Seq::empty());
    } else if s[pos] == TAG_DICTIONARY {
        lemma_entries_local(s, t, pos, pos + 1, Seq::empty());
    }
}

proof fn lemma_items_local(s: Seq<u8>, t: Seq<u8>, open: int, pos: int, done: Seq<Bencode>)
    requires
        spec_decode_items(s, open, pos, done) matches Ok((_, end)) && agree(s, t, pos, end),
    ensures
        spec_decode_items(t, open, pos, done) == spec_decode_items(s, open, pos, done),
    decreases s.len() - pos, 1int,
{
    lemma_items_sound(s, open, pos, done);
    if s[pos] != TERMINATOR {
        lemma_value_sound(s, pos);
        let item = spec_decode_value(s, pos)->Ok_0.0;
        let next = spec_decode_value(s, pos)->Ok_0.1;
        lemma_items_sound(s, open, next, done.push(item));
        lemma_value_local(s, t, pos);
        lemma_items_local(s, t, open, next, done.push(item));
    }
}

proof fn lemma_entries_local(
    s: Seq<u8>,
    t: Seq<u8>,
    open: int,
    pos: int,
    done: Seq<(Seq<u8>, Bencode)>,
)
    requires
        spec_decode_entries(s, open, pos, done) matches Ok((_, end)) && agree(s, t, pos, end),
    ensures
        spec_decode_entries(t, open, pos, done) == spec_decode_entries(s, open, pos, done),
    decreases s.len() - pos, 1int,
{
    lemma_entries_sound(s, open, pos, done);
    if s[pos] != TERMINATOR {
        lemma_value_sound(s, pos);
        let key = spec_decode_value(s, pos)->Ok_0.0->ByteString_0;
        let mid = spec_decode_value(s, pos)->Ok_0.1;
        lemma_value_sound(s, mid);
        let value = spec_decode_value(s, mid)->Ok_0.0;
        let next = spec_decode_value(s, mid)->Ok_0.1;
        lemma_entries_sound(s, open, next, dict_insert(done, key, value));
        lemma_value_local(s, t, pos);
        lemma_value_local(s, t, mid);
        lemma_entries_local(s, t, open, next, dict_insert(done, key, value));
    }
}

/// A value is self-delimiting: the bytes that follow it have no part in how
/// it decodes. Where `s` decodes at `pos` to a value that ends at `end`,
/// every input that holds the same bytes from `pos` up to `end` decodes at
/// `pos` to the same value and the same end.
pub proof fn lemma_decode_self_delimiting(s: Seq<u8>, t: Seq<u8>, pos: int)
    requires
        spec_decode_value(s, pos) matches Ok((_, end)) && agree(s, t, pos, end),
    ensures
        spec_decode_value(t, pos) == spec_decode_value(s, pos),
{
    lemma_value_local(s, t, pos);
}

proof fn lemma_value_failure(s: Seq<u8>, pos: int)
    requires
        0 <= pos <= s.len() <= usize::MAX,
    ensures
        spec_decode_value(s, pos) matches Err(e) ==> pos <= e.offset <= s.len(),
    decreases s.len() - pos, 0int,
{
    if pos < s.len() {
        if s[pos] == TAG_LIST {
            lemma_items_failure(s, pos, pos + 1, Seq::empty());
        } else if s[pos] == TAG_DICTIONARY {
            lemma_entries_failure(s, pos, pos + 1, Seq::empty());
        }
    }
}

proof fn lemma_items_failure(s: Seq<u8>, open: int, pos: int, done: Seq<Bencode>)
    requires
        0 <= open < pos <= s.len() <= usize::MAX,
    ensures
        spec_decode_items(s, open, pos, done) matches Err(e) ==> open <= e.offset <= s.len(),
    decreases s.len() - pos, 1int,
{
    if pos < s.len() && s[pos] != TERMINATOR {
        lemma_value_failure(s, pos);
        lemma_value_sound(s, pos);
        match spec_decode_value(s, pos) {
            Ok((item, next)) => {
                lemma_items_failure(s, open, next, done.push(item));
            },
            Err(_) => {},
        }
    }
}

proof fn lemma_entries_failure(s: Seq<u8>, open: int, pos: int, done: Seq<(Seq<u8>, Bencode)>)
    requires
        0 <= open < pos <= s.len() <= usize::MAX,
    ensures
        spec_decode_entries(s, open, pos, done) matches Err(e) ==> open <= e.offset <= s.len(),
    decreases s.len() - pos, 1int,
{
    if pos < s.len() && s[pos] != TERMINATOR {
        lemma_value_failure(s, pos);
        lemma_value_sound(s, pos);
        match spec_decode_value(s, pos) {
            Ok((Bencode::ByteString(key), mid)) => {
                lemma_value_failure(s, mid);
                lemma_value_sound(s, mid);
                match spec_decode_value(s, mid) {
                    Ok((value, next)) => {
                        lemma_entries_failure(s, open, next, dict_insert(done, key, value));
                    },
                    Err(_) => {},
                }
            },
            _ => {},
        }
    }
}

/// A failure points into the input: its offset is not before the place where
/// decoding started and not past the end.
pub proof fn lemma_decode_failure_within(s: Seq<u8>, pos: int)
    requires
        0 <= pos <= s.len() <= usize::MAX,
    ensures
        spec_decode_value(s, pos) matches Err(e) ==> pos <= e.offset <= s.len(),
{
    lemma_value_failure(s, pos);
}

/// A value that decoding yields ends after it starts and within the input:
/// decoding consumes at least one byte and never reads past the end.
pub proof fn lemma_decode_advances(s: Seq<u8>, pos: int)
    ensures
        spec_decode_value(s, pos) matches Ok((_, end)) ==> 0 <= pos < end <= s.len(),
{
    lemma_value_sound(s, pos);
}

/// A value that decoding yields is well formed: its integers fit 64 bits
/// and each of its dictionaries holds its keys in strictly ascending order,
/// whatever order the input had them in.
pub proof fn lemma_decode_well_formed(s: Seq<u8>, pos: int)
    ensures
        spec_decode_value(s, pos) matches Ok((value, _)) ==> value.wf(),
{
    lemma_value_sound(s, pos);
}

/// What follows the decoded value is a proper suffix of the input: the
/// value's bytes and the remainder make up the input.
pub proof fn lemma_decode_remainder(s: Seq<u8>)
    ensures
        spec_decode(s) matches Ok((_, rest)) ==> rest.len() < s.len() && s.subrange(
            s.len() - rest.len(),
            s.len() as int,
        ) == rest,
{
    lemma_value_sound(s, 0);
}

} // verus!
