use bencode_metainfo::decode::decode_bencoded_value;
use bencode_metainfo::grammar::{DecodeError, DecodeErrorKind};
use bencode_metainfo::metainfo::{
    deserialize_info, deserialize_torrent, torrent_from_bytes, Field, FileEntry, InfoDictionary,
    MetainfoError, TorrentDescriptor, TorrentError, PIECE_HASH_LENGTH,
};
use bencode_metainfo::value::{BencodeValue, Dictionary};

fn text(value: &str) -> BencodeValue {
    BencodeValue::ByteString(value.as_bytes().to_vec())
}

fn dictionary(entries: Vec<(&str, BencodeValue)>) -> BencodeValue {
    let mut out = Dictionary::new();
    for (key, value) in entries {
        out.insert(key.as_bytes().to_vec(), value);
    }
    BencodeValue::Dictionary(out)
}

fn hashes(count: usize) -> Vec<u8> {
    (0..count * 20).map(|i| (i % 251) as u8).collect()
}

fn single_file_info() -> Vec<(&'static str, BencodeValue)> {
    vec![
        ("name", text("sample.txt")),
        ("piece length", BencodeValue::Integer(32768)),
        ("pieces", BencodeValue::ByteString(hashes(3))),
        ("length", BencodeValue::Integer(92063)),
    ]
}

fn without(entries: Vec<(&'static str, BencodeValue)>, key: &str) -> Vec<(&'static str, BencodeValue)> {
    entries.into_iter().filter(|entry| entry.0 != key).collect()
}

fn with(
    entries: Vec<(&'static str, BencodeValue)>,
    key: &'static str,
    value: BencodeValue,
) -> Vec<(&'static str, BencodeValue)> {
    let mut out = without(entries, key);
    out.push((key, value));
    out
}

fn file(length: i64, path: Vec<&str>) -> BencodeValue {
    dictionary(vec![
        ("length", BencodeValue::Integer(length)),
        ("path", BencodeValue::List(path.into_iter().map(text).collect())),
    ])
}

fn multi_file_info() -> Vec<(&'static str, BencodeValue)> {
    vec![
        ("name", text("album")),
        ("piece length", BencodeValue::Integer(16384)),
        ("pieces", BencodeValue::ByteString(hashes(2))),
        (
            "files",
            BencodeValue::List(vec![
                file(10, vec!["disc1", "track1.flac"]),
                file(0, vec!["cover.jpg"]),
            ]),
        ),
    ]
}

fn root(info: Vec<(&'static str, BencodeValue)>) -> BencodeValue {
    dictionary(vec![("announce", text("http://tracker.example/announce")), ("info", dictionary(info))])
}

fn info_error(info: Vec<(&'static str, BencodeValue)>) -> MetainfoError {
    let value = dictionary(info);
    let direct = deserialize_info(&value).unwrap_err();
    let wrapped = dictionary(vec![("announce", text("x")), ("info", value)]);
    assert_eq!(deserialize_torrent(&wrapped), Err(direct));
    direct
}

#[test]
fn single_file_torrent_maps() {
    let torrent = deserialize_torrent(&root(single_file_info())).unwrap();
    assert_eq!(
        torrent,
        TorrentDescriptor {
            announce: String::from("http://tracker.example/announce"),
            info: InfoDictionary {
                name: String::from("sample.txt"),
                piece_length: 32768,
                pieces: hashes(3),
                length: Some(92063),
                files: None,
            },
        }
    );
    assert_eq!(torrent.info.pieces.len() % PIECE_HASH_LENGTH, 0);
}

#[test]
fn multi_file_torrent_maps() {
    let torrent = deserialize_torrent(&root(multi_file_info())).unwrap();
    assert_eq!(torrent.info.name, "album");
    assert_eq!(torrent.info.piece_length, 16384);
    assert_eq!(torrent.info.pieces, hashes(2));
    assert_eq!(torrent.info.length, None);
    assert_eq!(
        torrent.info.files,
        Some(vec![
            FileEntry {
                length: 10,
                path: vec![String::from("disc1"), String::from("track1.flac")],
            },
            FileEntry { length: 0, path: vec![String::from("cover.jpg")] },
        ])
    );
}

#[test]
fn length_wins_over_files() {
    let mut info = multi_file_info();
    info.push(("length", BencodeValue::Integer(7)));
    let mapped = deserialize_info(&dictionary(info)).unwrap();
    assert_eq!(mapped.length, Some(7));
    assert_eq!(mapped.files, None);
}

#[test]
fn bad_length_is_not_rescued_by_files() {
    let mut info = multi_file_info();
    info.push(("length", text("7")));
    assert_eq!(info_error(info), MetainfoError::TypeMismatch(Field::Length));
}

#[test]
fn empty_files_list_maps() {
    let info = with(multi_file_info(), "files", BencodeValue::List(vec![]));
    let mapped = deserialize_info(&dictionary(info)).unwrap();
    assert_eq!(mapped.length, None);
    assert_eq!(mapped.files, Some(vec![]));
}

#[test]
fn empty_pieces_map() {
    let info = with(single_file_info(), "pieces", BencodeValue::ByteString(vec![]));
    assert_eq!(deserialize_info(&dictionary(info)).unwrap().pieces, Vec::<u8>::new());
}

#[test]
fn largest_numbers_map() {
    let info = with(
        with(single_file_info(), "length", BencodeValue::Integer(i64::MAX)),
        "piece length",
        BencodeValue::Integer(0),
    );
    let mapped = deserialize_info(&dictionary(info)).unwrap();
    assert_eq!(mapped.length, Some(9223372036854775807));
    assert_eq!(mapped.piece_length, 0);
}

#[test]
fn unknown_keys_are_ignored() {
    let mut info = single_file_info();
    info.push(("private", BencodeValue::Integer(1)));
    let value = dictionary(vec![
        ("announce", text("url")),
        ("comment", text("hello")),
        ("info", dictionary(info)),
    ]);
    let torrent = deserialize_torrent(&value).unwrap();
    assert_eq!(torrent.announce, "url");
    assert_eq!(torrent.info.length, Some(92063));
}

#[test]
fn missing_announce() {
    let missing = MetainfoError::MissingField(Field::Announce);
    let info = dictionary(single_file_info());
    assert_eq!(deserialize_torrent(&dictionary(vec![("info", info)])), Err(missing));
    assert_eq!(deserialize_torrent(&dictionary(vec![])), Err(missing));
}

#[test]
fn announce_of_the_wrong_shape_counts_as_missing() {
    let missing = MetainfoError::MissingField(Field::Announce);
    for announce in [
        BencodeValue::Integer(1),
        BencodeValue::List(vec![text("url")]),
        BencodeValue::ByteString(vec![0xff, 0xfe]),
    ] {
        let value =
            dictionary(vec![("announce", announce), ("info", dictionary(single_file_info()))]);
        assert_eq!(deserialize_torrent(&value), Err(missing));
    }
}

#[test]
fn root_that_is_no_dictionary_has_no_announce() {
    let missing = MetainfoError::MissingField(Field::Announce);
    assert_eq!(deserialize_torrent(&BencodeValue::Integer(1)), Err(missing));
    assert_eq!(deserialize_torrent(&text("announce")), Err(missing));
    assert_eq!(deserialize_torrent(&BencodeValue::List(vec![])), Err(missing));
}

#[test]
fn missing_info() {
    let missing = MetainfoError::MissingField(Field::Info);
    assert_eq!(deserialize_torrent(&dictionary(vec![("announce", text("url"))])), Err(missing));
    for info in [BencodeValue::Integer(1), text("info"), BencodeValue::List(vec![])] {
        let value = dictionary(vec![("announce", text("url")), ("info", info)]);
        assert_eq!(deserialize_torrent(&value), Err(missing));
    }
}

#[test]
fn announce_is_read_before_info() {
    let value = dictionary(vec![("announce", BencodeValue::Integer(1)), ("info", text("x"))]);
    assert_eq!(deserialize_torrent(&value), Err(MetainfoError::MissingField(Field::Announce)));
}

#[test]
fn missing_info_fields() {
    for (key, field) in [
        ("name", Field::Name),
        ("piece length", Field::PieceLength),
        ("pieces", Field::Pieces),
    ] {
        assert_eq!(
            info_error(without(single_file_info(), key)),
            MetainfoError::MissingField(field)
        );
    }
}

#[test]
fn info_that_is_no_dictionary_has_no_name() {
    assert_eq!(
        deserialize_info(&BencodeValue::Integer(1)),
        Err(MetainfoError::MissingField(Field::Name))
    );
}

#[test]
fn info_fields_are_read_in_order() {
    let info = vec![("length", BencodeValue::Integer(1))];
    assert_eq!(info_error(info), MetainfoError::MissingField(Field::Name));
    let info = vec![("name", text("n")), ("pieces", BencodeValue::Integer(1))];
    assert_eq!(info_error(info), MetainfoError::MissingField(Field::PieceLength));
    let info = vec![("name", text("n")), ("piece length", text("x"))];
    assert_eq!(info_error(info), MetainfoError::TypeMismatch(Field::PieceLength));
}

#[test]
fn mistyped_name() {
    let mismatch = MetainfoError::TypeMismatch(Field::Name);
    assert_eq!(info_error(with(single_file_info(), "name", BencodeValue::Integer(1))), mismatch);
    assert_eq!(
        info_error(with(single_file_info(), "name", BencodeValue::ByteString(vec![0x80]))),
        mismatch
    );
}

#[test]
fn mistyped_piece_length() {
    let mismatch = MetainfoError::TypeMismatch(Field::PieceLength);
    assert_eq!(info_error(with(single_file_info(), "piece length", text("16384"))), mismatch);
    assert_eq!(
        info_error(with(single_file_info(), "piece length", BencodeValue::Integer(-1))),
        mismatch
    );
}

#[test]
fn mistyped_pieces() {
    let mismatch = MetainfoError::TypeMismatch(Field::Pieces);
    assert_eq!(info_error(with(single_file_info(), "pieces", BencodeValue::Integer(20))), mismatch);
    assert_eq!(
        info_error(with(single_file_info(), "pieces", BencodeValue::List(vec![]))),
        mismatch
    );
}

#[test]
fn pieces_must_be_whole_hashes() {
    let mismatch = MetainfoError::TypeMismatch(Field::Pieces);
    for length in [1, 19, 21, 39] {
        let pieces = BencodeValue::ByteString(vec![7; length]);
        assert_eq!(info_error(with(single_file_info(), "pieces", pieces)), mismatch);
    }
    for length in [0, 20, 40, 2000] {
        let pieces = BencodeValue::ByteString(vec![7; length]);
        let mapped =
            deserialize_info(&dictionary(with(single_file_info(), "pieces", pieces))).unwrap();
        assert_eq!(mapped.pieces, vec![7; length]);
    }
}

#[test]
fn mistyped_length() {
    let mismatch = MetainfoError::TypeMismatch(Field::Length);
    assert_eq!(info_error(with(single_file_info(), "length", BencodeValue::Integer(-1))), mismatch);
    assert_eq!(info_error(with(single_file_info(), "length", text("1"))), mismatch);
}

#[test]
fn neither_length_nor_files_is_ambiguous() {
    assert_eq!(info_error(without(single_file_info(), "length")), MetainfoError::AmbiguousLayout);
}

#[test]
fn mistyped_files() {
    let mismatch = MetainfoError::TypeMismatch(Field::Files);
    assert_eq!(info_error(with(multi_file_info(), "files", BencodeValue::Integer(1))), mismatch);
    assert_eq!(info_error(with(multi_file_info(), "files", dictionary(vec![]))), mismatch);
    let list = BencodeValue::List(vec![file(1, vec!["a"]), text("b")]);
    assert_eq!(info_error(with(multi_file_info(), "files", list)), mismatch);
}

#[test]
fn file_entry_failures() {
    let cases = vec![
        (dictionary(vec![("path", BencodeValue::List(vec![text("a")]))]),
            MetainfoError::MissingField(Field::Length)),
        (dictionary(vec![("length", BencodeValue::Integer(-5)),
            ("path", BencodeValue::List(vec![text("a")]))]),
            MetainfoError::TypeMismatch(Field::Length)),
        (dictionary(vec![("length", BencodeValue::Integer(5))]),
            MetainfoError::MissingField(Field::Path)),
        (dictionary(vec![("length", BencodeValue::Integer(5)), ("path", text("a"))]),
            MetainfoError::TypeMismatch(Field::Path)),
        (dictionary(vec![("length", BencodeValue::Integer(5)),
            ("path", BencodeValue::List(vec![text("a"), BencodeValue::Integer(1)]))]),
            MetainfoError::TypeMismatch(Field::Path)),
        (dictionary(vec![("length", BencodeValue::Integer(5)),
            ("path", BencodeValue::List(vec![BencodeValue::ByteString(vec![0xc3])]))]),
            MetainfoError::TypeMismatch(Field::Path)),
    ];
    for (entry, expected) in cases {
        let list = BencodeValue::List(vec![file(1, vec!["ok"]), entry]);
        assert_eq!(info_error(with(multi_file_info(), "files", list)), expected);
    }
}

#[test]
fn first_bad_file_decides_the_failure() {
    let list = BencodeValue::List(vec![
        file(1, vec!["ok"]),
        dictionary(vec![("length", BencodeValue::Integer(5))]),
        BencodeValue::Integer(3),
        dictionary(vec![]),
    ]);
    assert_eq!(
        info_error(with(multi_file_info(), "files", list)),
        MetainfoError::MissingField(Field::Path)
    );
}

#[test]
fn empty_path_maps() {
    let list = BencodeValue::List(vec![file(3, vec![])]);
    let mapped = deserialize_info(&dictionary(with(multi_file_info(), "files", list))).unwrap();
    assert_eq!(mapped.files, Some(vec![FileEntry { length: 3, path: vec![] }]));
}

#[test]
fn field_names_are_the_metainfo_keys() {
    let names = [
        (Field::Announce, "announce"),
        (Field::Info, "info"),
        (Field::Name, "name"),
        (Field::PieceLength, "piece length"),
        (Field::Pieces, "pieces"),
        (Field::Length, "length"),
        (Field::Files, "files"),
        (Field::Path, "path"),
    ];
    for (field, name) in names {
        assert_eq!(field.name(), name);
        assert_eq!(field.key(), name.as_bytes());
    }
}

#[test]
fn decoded_metainfo_maps() {
    let mut input = b"d8:announce31:http://tracker.example/announce4:infod".to_vec();
    input.extend_from_slice(b"6:lengthi92063e4:name10:sample.txt12:piece lengthi32768e6:pieces60:");
    input.extend_from_slice(&hashes(3));
    input.extend_from_slice(b"ee");
    let (value, rest) = decode_bencoded_value(&input).unwrap();
    assert_eq!(rest, b"");
    assert_eq!(value, root(single_file_info()));
    assert_eq!(deserialize_torrent(&value), deserialize_torrent(&root(single_file_info())));
    assert_eq!(torrent_from_bytes(&input).ok(), deserialize_torrent(&value).ok());
    assert_eq!(torrent_from_bytes(&input).unwrap().info.length, Some(92063));
}

#[test]
fn decoded_multi_file_metainfo_maps() {
    let input = b"d8:announce3:url4:infod5:filesld6:lengthi3e4:pathl1:a1:beed6:lengthi0e4:pathl1:ceee4:name1:n12:piece lengthi2e6:pieces0:ee";
    let torrent = torrent_from_bytes(input).unwrap();
    assert_eq!(torrent.announce, "url");
    assert_eq!(torrent.info.name, "n");
    assert_eq!(torrent.info.piece_length, 2);
    assert_eq!(torrent.info.length, None);
    assert_eq!(
        torrent.info.files,
        Some(vec![
            FileEntry { length: 3, path: vec![String::from("a"), String::from("b")] },
            FileEntry { length: 0, path: vec![String::from("c")] },
        ])
    );
}

#[test]
fn bytes_after_the_root_are_not_looked_at() {
    let mut input = b"d8:announce3:url4:infod6:lengthi1e4:name1:n12:piece lengthi2e6:pieces0:ee".to_vec();
    let plain = torrent_from_bytes(&input).unwrap();
    input.extend_from_slice(b"trailing garbage");
    assert_eq!(torrent_from_bytes(&input), Ok(plain));
}

#[test]
fn bytes_that_do_not_decode_are_refused() {
    assert_eq!(
        torrent_from_bytes(b""),
        Err(TorrentError::Decode(DecodeError { kind: DecodeErrorKind::UnrecognizedTag, offset: 0 }))
    );
    assert_eq!(
        torrent_from_bytes(b"d8:announce3:url"),
        Err(TorrentError::Decode(DecodeError {
            kind: DecodeErrorKind::UnterminatedDictionary,
            offset: 0
        }))
    );
}

#[test]
fn bytes_that_decode_to_no_torrent_are_refused() {
    assert_eq!(
        torrent_from_bytes(b"i1e"),
        Err(TorrentError::Metainfo(MetainfoError::MissingField(Field::Announce)))
    );
    assert_eq!(
        torrent_from_bytes(b"d8:announce3:url4:infod4:name1:n12:piece lengthi2e6:pieces0:ee"),
        Err(TorrentError::Metainfo(MetainfoError::AmbiguousLayout))
    );
}
