use bencode_metainfo::decode::decode_bencoded_value;
use bencode_metainfo::value::{BencodeValue, Dictionary};

/// The canonical encoding, for checking the decoder against.
fn encode(value: &BencodeValue, out: &mut Vec<u8>) {
    match value {
        BencodeValue::Integer(n) => {
            out.extend_from_slice(format!("i{}e", n).as_bytes());
        }
        BencodeValue::ByteString(bytes) => {
            out.extend_from_slice(format!("{}:", bytes.len()).as_bytes());
            out.extend_from_slice(bytes);
        }
        BencodeValue::List(items) => {
            out.push(b'l');
            for item in items {
                encode(item, out);
            }
            out.push(b'e');
        }
        BencodeValue::Dictionary(entries) => {
            out.push(b'd');
            for i in 0..entries.len() {
                let (key, item) = entries.entry(i).unwrap();
                out.extend_from_slice(format!("{}:", key.len()).as_bytes());
                out.extend_from_slice(key);
                encode(item, out);
            }
            out.push(b'e');
        }
    }
}

fn text(value: &str) -> BencodeValue {
    BencodeValue::ByteString(value.as_bytes().to_vec())
}

fn dictionary(entries: Vec<(&[u8], BencodeValue)>) -> BencodeValue {
    let mut out = Dictionary::new();
    for (key, value) in entries {
        out.insert(key.to_vec(), value);
    }
    BencodeValue::Dictionary(out)
}

fn samples() -> Vec<BencodeValue> {
    vec![
        BencodeValue::Integer(0),
        BencodeValue::Integer(7),
        BencodeValue::Integer(-7),
        BencodeValue::Integer(10),
        BencodeValue::Integer(1000000),
        BencodeValue::Integer(i64::MAX),
        BencodeValue::Integer(i64::MIN),
        text(""),
        text("spam"),
        text("0123456789"),
        BencodeValue::ByteString((0..=255).collect()),
        BencodeValue::ByteString(vec![b'e'; 100]),
        BencodeValue::List(vec![]),
        BencodeValue::List(vec![BencodeValue::List(vec![]), BencodeValue::List(vec![])]),
        BencodeValue::List(vec![text("spam"), BencodeValue::Integer(-3), text("")]),
        dictionary(vec![]),
        dictionary(vec![(b"", BencodeValue::Integer(1))]),
        dictionary(vec![
            (b"spam", BencodeValue::List(vec![text("a"), text("b")])),
            (b"cow", text("moo")),
            (&[0xff, 0x00], dictionary(vec![(b"e", BencodeValue::Integer(0))])),
            (b"co", BencodeValue::Integer(-1)),
        ]),
    ]
}

#[test]
fn decoding_undoes_encoding() {
    for value in samples() {
        let mut encoded = Vec::new();
        encode(&value, &mut encoded);
        let (decoded, rest) = decode_bencoded_value(&encoded).unwrap();
        assert_eq!(decoded, value);
        assert_eq!(rest, b"");
    }
}

#[test]
fn decoding_undoes_encoding_before_any_suffix() {
    for value in samples() {
        for suffix in [&b"e"[..], b"i1e", b"4:spam", b"\x00", b"ee:0123"] {
            let mut encoded = Vec::new();
            encode(&value, &mut encoded);
            encoded.extend_from_slice(suffix);
            let (decoded, rest) = decode_bencoded_value(&encoded).unwrap();
            assert_eq!(decoded, value);
            assert_eq!(rest, suffix);
        }
    }
}

#[test]
fn reference_encoder_writes_the_known_spellings() {
    let mut out = Vec::new();
    encode(&dictionary(vec![(b"spam", text("eggs")), (b"cow", text("moo"))]), &mut out);
    assert_eq!(out, b"d3:cow3:moo4:spam4:eggse");
    let mut out = Vec::new();
    let inner = BencodeValue::List(vec![text("foo"), BencodeValue::Integer(-45)]);
    encode(&BencodeValue::List(vec![BencodeValue::Integer(25), inner]), &mut out);
    assert_eq!(out, b"li25el3:fooi-45eee");
}

/// A small deterministic generator, so that the runs repeat.
struct Numbers(u64);

impl Numbers {
    fn next(&mut self) -> u64 {
        self.0 = self.0.wrapping_mul(6364136223846793005).wrapping_add(1442695040888963407);
        self.0 >> 33
    }

    fn below(&mut self, bound: u64) -> u64 {
        self.next() % bound
    }

    fn bytes(&mut self, longest: u64) -> Vec<u8> {
        let length = self.below(longest + 1);
        (0..length).map(|_| self.below(256) as u8).collect()
    }

    fn value(&mut self, depth: u32) -> BencodeValue {
        let kinds = if depth == 0 { 2 } else { 4 };
        match self.below(kinds) {
            0 => match self.below(4) {
                0 => BencodeValue::Integer(self.below(20) as i64 - 10),
                1 => BencodeValue::Integer(i64::MIN + self.below(3) as i64),
                2 => BencodeValue::Integer(i64::MAX - self.below(3) as i64),
                _ => BencodeValue::Integer((self.next() << 31 ^ self.next()) as i64),
            },
            1 => BencodeValue::ByteString(self.bytes(12)),
            2 => {
                let length = self.below(4);
                BencodeValue::List((0..length).map(|_| self.value(depth - 1)).collect())
            }
            _ => {
                let mut entries = Dictionary::new();
                for _ in 0..self.below(4) {
                    let key = self.bytes(3);
                    let item = self.value(depth - 1);
                    entries.insert(key, item);
                }
                BencodeValue::Dictionary(entries)
            }
        }
    }
}

#[test]
fn decoding_undoes_encoding_of_generated_values() {
    let mut numbers = Numbers(2024);
    for _ in 0..2000 {
        let value = numbers.value(4);
        let suffix = numbers.bytes(4);
        let mut encoded = Vec::new();
        encode(&value, &mut encoded);
        let length = encoded.len();
        encoded.extend_from_slice(&suffix);
        let (decoded, rest) = decode_bencoded_value(&encoded).unwrap();
        assert_eq!(decoded, value);
        assert_eq!(rest, &suffix[..]);
        assert_eq!(rest.len(), encoded.len() - length);
    }
}

#[test]
fn damaged_encodings_decode_or_fail_within_the_input() {
    let mut numbers = Numbers(7);
    for _ in 0..2000 {
        let value = numbers.value(3);
        let mut encoded = Vec::new();
        encode(&value, &mut encoded);
        match numbers.below(3) {
            0 => {
                let keep = numbers.below(encoded.len() as u64) as usize;
                encoded.truncate(keep);
            }
            1 => {
                let at = numbers.below(encoded.len() as u64) as usize;
                encoded[at] = numbers.below(256) as u8;
            }
            _ => {
                let at = numbers.below(encoded.len() as u64 + 1) as usize;
                encoded.insert(at, b"ilde0:-9"[numbers.below(8) as usize]);
            }
        }
        match decode_bencoded_value(&encoded) {
            Ok((_, rest)) => {
                assert!(rest.len() < encoded.len());
                assert_eq!(rest, &encoded[encoded.len() - rest.len()..]);
            }
            Err(failure) => assert!(failure.offset <= encoded.len()),
        }
        assert_eq!(decode_bencoded_value(&encoded), decode_bencoded_value(&encoded.clone()));
    }
}
