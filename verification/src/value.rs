//! The generic value tree that decoding produces, and its mathematical model.

use crate::order::{
    bytes_equal, bytes_less, lemma_lex_irreflexive, lemma_lex_total, lemma_lex_transitive, lex_less,
};
use vstd::prelude::*;

verus! {

/// The mathematical value of a bencode term.
///
/// A dictionary is the sequence of its entries; in a well-formed value the
/// entries stand in strictly ascending key order (see [`Bencode::wf`]), so
/// that the sequence determines a mapping and is determined by it.
pub enum Bencode {
    Integer(int),
    ByteString(Seq<u8>),
    List(Seq<Bencode>),
    Dictionary(Seq<(Seq<u8>, Bencode)>),
}

/// The keys of `entries` are strictly ascending in lexicographic byte order;
/// in particular no key occurs twice.
pub open spec fn keys_sorted(entries: Seq<(Seq<u8>, Bencode)>) -> bool {
    forall|i: int, j: int|
        0 <= i < j < entries.len() ==> lex_less(#[trigger] entries[i].0, #[trigger] entries[j].0)
}

impl Bencode {
    /// Every integer fits a signed 64-bit integer, and every dictionary in
    /// the tree holds its keys in strictly ascending order.
    pub open spec fn wf(self) -> bool
        decreases self,
    {
        match self {
            Bencode::Integer(n) => i64::MIN <= n <= i64::MAX,
            Bencode::ByteString(_) => true,
            Bencode::List(items) => forall|i: int|
                0 <= i < items.len() ==> (#[trigger] items[i]).wf(),
            Bencode::Dictionary(entries) => {
                &&& keys_sorted(entries)
                &&& forall|i: int| 0 <= i < entries.len() ==> (#[trigger] entries[i]).1.wf()
            },
        }
    }
}

/// The first index at or after `from` whose key does not sort before `key`
/// (the number of entries, where there is none).
pub open spec fn insertion_index(entries: Seq<(Seq<u8>, Bencode)>, key: Seq<u8>, from: int) -> int
    decreases entries.len() - from,
{
    if 0 <= from < entries.len() && lex_less(entries[from].0, key) {
        insertion_index(entries, key, from + 1)
    } else {
        from
    }
}

/// `entries` with `key` bound to `value`: the value of an entry that holds
/// `key` already is replaced, a new entry goes where the order puts it.
pub open spec fn dict_insert(entries: Seq<(Seq<u8>, Bencode)>, key: Seq<u8>, value: Bencode) -> Seq<
    (Seq<u8>, Bencode),
> {
    let at = insertion_index(entries, key, 0);
    if at < entries.len() && entries[at].0 == key {
        entries.update(at, (key, value))
    } else {
        entries.insert(at, (key, value))
    }
}

/// The first index at or after `from` whose key is `key` (the number of
/// entries, where there is none).
pub open spec fn index_of_key(entries: Seq<(Seq<u8>, Bencode)>, key: Seq<u8>, from: int) -> int
    decreases entries.len() - from,
{
    if 0 <= from < entries.len() && entries[from].0 != key {
        index_of_key(entries, key, from + 1)
    } else {
        from
    }
}

/// The value bound to `key`, if any.
pub open spec fn dict_get(entries: Seq<(Seq<u8>, Bencode)>, key: Seq<u8>) -> Option<Bencode> {
    let at = index_of_key(entries, key, 0);
    if at < entries.len() {
        Some(entries[at].1)
    } else {
        None
    }
}

/// A decoded bencode term.
#[derive(Debug, PartialEq, Eq)]
pub enum BencodeValue {
    /// A signed 64-bit integer.
    Integer(i64),
    /// Raw bytes, not necessarily text.
    ByteString(Vec<u8>),
    /// An ordered sequence of values.
    List(Vec<BencodeValue>),
    /// A mapping from byte-string keys to values.
    Dictionary(Dictionary),
}

/// A mapping from byte-string keys to values, kept in ascending key order.
#[derive(Debug, PartialEq, Eq)]
pub struct Dictionary {
    entries: Vec<(Vec<u8>, BencodeValue)>,
}

impl View for BencodeValue {
    type V = Bencode;

    /// The mathematical value of the term. (The index test in the list's
    /// case always holds; termination checking asks for it.)
    open spec fn view(&self) -> Bencode
        decreases self,
    {
        match self {
            BencodeValue::Integer(n) => Bencode::Integer(*n as int),
            BencodeValue::ByteString(b) => Bencode::ByteString(b@),
            BencodeValue::List(items) => Bencode::List(
                Seq::new(
                    items@.len(),
                    |i: int|
                        if 0 <= i < items@.len() {
                            items@[i]@
                        } else {
                            Bencode::Integer(0)
                        },
                ),
            ),
            BencodeValue::Dictionary(d) => Bencode::Dictionary(d@),
        }
    }
}

impl View for Dictionary {
    type V = Seq<(Seq<u8>, Bencode)>;

    /// The entries in the order in which they are kept, each a key and the
    /// model of its value.
    closed spec fn view(&self) -> Seq<(Seq<u8>, Bencode)>
        decreases self,
    {
        Seq::new(
            self.entries@.len(),
            |i: int|
                if 0 <= i < self.entries@.len() {
                    (self.entries@[i].0@, self.entries@[i].1@)
                } else {
                    (Seq::empty(), Bencode::Integer(0))
                },
        )
    }
}

/// The models of `items`, in order.
pub open spec fn views_of(items: Seq<BencodeValue>) -> Seq<Bencode> {
    Seq::new(items.len(), |i: int| items[i]@)
}

/// The model of a list is the sequence of its items' models.
pub proof fn lemma_list_view(items: Vec<BencodeValue>)
    ensures
        BencodeValue::List(items)@ == Bencode::List(views_of(items@)),
{
    assert(BencodeValue::List(items)@->List_0 =~= views_of(items@));
}

/// Inserting into a dictionary with ascending keys leaves the keys ascending.
pub proof fn lemma_insert_keeps_sorted(entries: Seq<(Seq<u8>, Bencode)>, key: Seq<u8>, value: Bencode)
    requires
        keys_sorted(entries),
    ensures
        keys_sorted(dict_insert(entries, key, value)),
{
    let at = insertion_index(entries, key, 0);
    lemma_insertion_index(entries, key, 0);
    let out = dict_insert(entries, key, value);
    assert forall|i: int, j: int| 0 <= i < j < out.len() implies lex_less(
        #[trigger] out[i].0,
        #[trigger] out[j].0,
    ) by {
        if at < entries.len() && entries[at].0 != key {
            // the entry at `at`, and so every entry after it, sorts after `key`
            if !lex_less(key, entries[at].0) {
                lemma_lex_total(entries[at].0, key);
            }
            if i == at && j - 1 > at {
                lemma_lex_transitive(key, entries[at].0, entries[j - 1].0);
            }
        }
    }
}

/// Where `insertion_index` lands: within bounds, after every key it passed,
/// and at a key that does not sort before `key`.
pub proof fn lemma_insertion_index(entries: Seq<(Seq<u8>, Bencode)>, key: Seq<u8>, from: int)
    requires
        0 <= from <= entries.len(),
    ensures
        from <= insertion_index(entries, key, from) <= entries.len(),
        forall|i: int|
            from <= i < insertion_index(entries, key, from) ==> lex_less(
                (#[trigger] entries[i]).0,
                key,
            ),
        insertion_index(entries, key, from) < entries.len() ==> !lex_less(
            entries[insertion_index(entries, key, from)].0,
            key,
        ),
    decreases entries.len() - from,
{
    if from < entries.len() && lex_less(entries[from].0, key) {
        lemma_insertion_index(entries, key, from + 1);
    }
}

/// Where `index_of_key` lands: within bounds, past entries that hold other
/// keys only, and at an entry that holds `key`.
pub proof fn lemma_index_of_key(entries: Seq<(Seq<u8>, Bencode)>, key: Seq<u8>, from: int)
    requires
        0 <= from <= entries.len(),
    ensures
        from <= index_of_key(entries, key, from) <= entries.len(),
        forall|i: int|
            from <= i < index_of_key(entries, key, from) ==> (#[trigger] entries[i]).0 != key,
        index_of_key(entries, key, from) < entries.len() ==> entries[index_of_key(
            entries,
            key,
            from,
        )].0 == key,
    decreases entries.len() - from,
{
    if from < entries.len() && entries[from].0 != key {
        lemma_index_of_key(entries, key, from + 1);
    }
}

/// The first entry at or after `from` that holds `key` is at `at`.
proof fn lemma_index_of_key_is(entries: Seq<(Seq<u8>, Bencode)>, key: Seq<u8>, from: int, at: int)
    requires
        0 <= from <= at <= entries.len(),
        forall|i: int| from <= i < at ==> (#[trigger] entries[i]).0 != key,
        at < entries.len() ==> entries[at].0 == key,
    ensures
        index_of_key(entries, key, from) == at,
    decreases at - from,
{
    if from < at {
        lemma_index_of_key_is(entries, key, from + 1, at);
    }
}

/// An empty dictionary binds no key.
pub proof fn lemma_get_empty(key: Seq<u8>)
    ensures
        dict_get(Seq::empty(), key) is None,
{
}

/// A key is bound to what was last inserted under it.
pub proof fn lemma_get_inserted(entries: Seq<(Seq<u8>, Bencode)>, key: Seq<u8>, value: Bencode)
    ensures
        dict_get(dict_insert(entries, key, value), key) == Some(value),
{
    let at = insertion_index(entries, key, 0);
    lemma_insertion_index(entries, key, 0);
    let out = dict_insert(entries, key, value);
    assert forall|i: int| 0 <= i < at implies (#[trigger] out[i]).0 != key by {
        lemma_lex_irreflexive(key);
    }
    lemma_index_of_key_is(out, key, 0, at);
}

/// Inserting under one key leaves what every other key is bound to.
pub proof fn lemma_get_other(
    entries: Seq<(Seq<u8>, Bencode)>,
    key: Seq<u8>,
    value: Bencode,
    other: Seq<u8>,
)
    requires
        other != key,
    ensures
        dict_get(dict_insert(entries, key, value), other) == dict_get(entries, other),
{
    let at = insertion_index(entries, key, 0);
    lemma_insertion_index(entries, key, 0);
    let out = dict_insert(entries, key, value);
    let found = index_of_key(entries, other, 0);
    lemma_index_of_key(entries, other, 0);
    if at < entries.len() && entries[at].0 == key {
        // the entry at `at` is rebound, and every entry stays where it is
        lemma_index_of_key_is(out, other, 0, found);
    } else {
        // a new entry goes in at `at`, and the entries from there on move up by one
        let moved = if found < at {
            found
        } else {
            found + 1
        };
        lemma_index_of_key_is(out, other, 0, moved);
    }
}

/// Inserting a well-formed value into a well-formed dictionary leaves it
/// well formed.
pub proof fn lemma_insert_keeps_wf(entries: Seq<(Seq<u8>, Bencode)>, key: Seq<u8>, value: Bencode)
    requires
        Bencode::Dictionary(entries).wf(),
        value.wf(),
    ensures
        Bencode::Dictionary(dict_insert(entries, key, value)).wf(),
{
    lemma_insert_keeps_sorted(entries, key, value);
    let at = insertion_index(entries, key, 0);
    lemma_insertion_index(entries, key, 0);
    let out = dict_insert(entries, key, value);
    assert forall|i: int| 0 <= i < out.len() implies (#[trigger] out[i]).1.wf() by {
        // `out[i]` is the new entry, or an entry of `entries`
        if at < entries.len() && entries[at].0 == key {
            assert(i == at || out[i] == entries[i]);
        } else {
            assert(i == at || out[i] == entries[if i < at { i } else { i - 1 }]);
        }
    }
}

impl Dictionary {
    /// An empty dictionary.
    pub fn new() -> (d: Dictionary)
        ensures
            d@ == Seq::<(Seq<u8>, Bencode)>::empty(),
    {
        Dictionary { entries: Vec::new() }
    }

    /// The number of entries.
    pub fn len(&self) -> (n: usize)
        ensures
            n == self@.len(),
    {
        self.entries.len()
    }

    /// Binds `key` to `value`, replacing the value that `key` was bound to.
    pub fn insert(&mut self, key: Vec<u8>, value: BencodeValue)
        ensures
            final(self)@ == dict_insert(old(self)@, key@, value@),
            keys_sorted(old(self)@) ==> keys_sorted(final(self)@),
            Bencode::Dictionary(old(self)@).wf() && value@.wf() ==> Bencode::Dictionary(
                final(self)@,
            ).wf(),
    {
        let mut at: usize = 0;
        while at < self.entries.len() && bytes_less(self.entries[at].0.as_slice(), key.as_slice())
            invariant
                at <= self.entries.len(),
                self.entries == old(self).entries,
                insertion_index(self@, key@, 0) == insertion_index(self@, key@, at as int),
            decreases self.entries.len() - at,
        {
            at += 1;
        }
        if at < self.entries.len() && bytes_equal(self.entries[at].0.as_slice(), key.as_slice()) {
            self.entries[at] = (key, value);
        } else {
            self.entries.insert(at, (key, value));
            assert(self@ =~= dict_insert(old(self)@, key@, value@));
        }
        proof {
            if keys_sorted(old(self)@) {
                lemma_insert_keeps_sorted(old(self)@, key@, value@);
            }
            if Bencode::Dictionary(old(self)@).wf() && value@.wf() {
                lemma_insert_keeps_wf(old(self)@, key@, value@);
            }
        }
    }

    /// The value bound to `key`, if any.
    pub fn get(&self, key: &[u8]) -> (r: Option<&BencodeValue>)
        ensures
            match r {
                Some(v) => dict_get(self@, key@) == Some(v@),
                None => dict_get(self@, key@) is None,
            },
    {
        let mut at: usize = 0;
        while at < self.entries.len()
            invariant
                at <= self.entries.len(),
                index_of_key(self@, key@, 0) == index_of_key(self@, key@, at as int),
            decreases self.entries.len() - at,
        {
            if bytes_equal(self.entries[at].0.as_slice(), key) {
                return Some(&self.entries[at].1);
            }
            at += 1;
        }
        None
    }

    /// The entry at `index` in key order, if there are that many.
    pub fn entry(&self, index: usize) -> (r: Option<(&[u8], &BencodeValue)>)
        ensures
            r is Some <==> index < self@.len(),
            r matches Some((k, v)) ==> self@[index as int] == (k@, v@),
    {
        if index < self.entries.len() {
            Some((self.entries[index].0.as_slice(), &self.entries[index].1))
        } else {
            None
        }
    }
}

} // verus!
