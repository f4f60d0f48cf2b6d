//! The torrent descriptor, and the mapping from a decoded value tree to it.

use crate::decode::decode_bencoded_value;
use crate::grammar::{spec_decode, DecodeError};
use crate::text::{spec_text, text_from_bytes};
use crate::value::{dict_get, lemma_list_view, views_of, Bencode, BencodeValue};
use vstd::prelude::*;
use vstd::slice::slice_to_vec;
use vstd::utf8::encode_utf8;

verus! {

/// The length in bytes of one piece hash.
pub const PIECE_HASH_LENGTH: usize = 20;

/// A key of the metainfo dictionaries.
#[derive(Debug, Clone, Copy, PartialEq, Eq, Structural)]
pub enum Field {
    Announce,
    Info,
    Name,
    PieceLength,
    Pieces,
    Length,
    Files,
    Path,
}

impl Field {
    /// The key as it is written in a metainfo dictionary.
    pub open spec fn spec_name(self) -> Seq<char> {
        match self {
            Field::Announce => "announce"@,
            Field::Info => "info"@,
            Field::Name => "name"@,
            Field::PieceLength => "piece length"@,
            Field::Pieces => "pieces"@,
            Field::Length => "length"@,
            Field::Files => "files"@,
            Field::Path => "path"@,
        }
    }

    /// The bytes of the key.
    pub open spec fn spec_key(self) -> Seq<u8> {
        encode_utf8(self.spec_name())
    }

    /// The key as it is written in a metainfo dictionary.
    pub fn name(self) -> (name: &'static str)
        ensures
            name@ == self.spec_name(),
    {
        match self {
            Field::Announce => "announce",
            Field::Info => "info",
            Field::Name => "name",
            Field::PieceLength => "piece length",
            Field::Pieces => "pieces",
            Field::Length => "length",
            Field::Files => "files",
            Field::Path => "path",
        }
    }

    /// The bytes of the key.
    pub fn key(self) -> (key: &'static [u8])
        ensures
            key@ == self.spec_key(),
    {
        self.name().as_bytes()
    }
}

/// Why a value tree is no torrent descriptor.
#[derive(Debug, Clone, Copy, PartialEq, Eq, Structural)]
pub enum MetainfoError {
    /// A required key is absent (at the top level: absent or of the wrong
    /// shape).
    MissingField(Field),
    /// A key of the info dictionary, or of a file in it, is bound to a value
    /// of the wrong shape: not the kind of value that is due, bytes that are
    /// not UTF-8 where text is due, a negative number, piece hashes that are
    /// not whole.
    TypeMismatch(Field),
    /// The info dictionary holds neither `length` nor `files`.
    AmbiguousLayout,
}

/// Why bytes are no torrent descriptor.
#[derive(Debug, Clone, Copy, PartialEq, Eq, Structural)]
pub enum TorrentError {
    /// The bytes do not start with a bencode value.
    Decode(DecodeError),
    /// The value they start with is no torrent descriptor.
    Metainfo(MetainfoError),
}

/// One file of a multi-file torrent.
#[derive(Debug, PartialEq, Eq)]
pub struct FileEntry {
    /// The size of the file in bytes.
    pub length: u64,
    /// The directories that lead to the file, and last its name.
    pub path: Vec<String>,
}

/// The info dictionary of a torrent.
#[derive(Debug, PartialEq, Eq)]
pub struct InfoDictionary {
    /// The suggested name of the file or directory.
    pub name: String,
    /// The number of bytes in each piece but possibly the last.
    pub piece_length: u64,
    /// The hashes of the pieces, one after the other: a multiple of
    /// [`PIECE_HASH_LENGTH`] bytes.
    pub pieces: Vec<u8>,
    /// The size in bytes of the one file of a single-file torrent.
    pub length: Option<u64>,
    /// The files of a multi-file torrent.
    pub files: Option<Vec<FileEntry>>,
}

/// A torrent: where its tracker is, and what it holds.
#[derive(Debug, PartialEq, Eq)]
pub struct TorrentDescriptor {
    /// The URL of the tracker.
    pub announce: String,
    pub info: InfoDictionary,
}

/// The mathematical value of a [`FileEntry`].
pub struct FileEntryModel {
    pub length: nat,
    pub path: Seq<Seq<char>>,
}

/// The mathematical value of an [`InfoDictionary`].
pub struct InfoModel {
    pub name: Seq<char>,
    pub piece_length: nat,
    pub pieces: Seq<u8>,
    pub length: Option<nat>,
    pub files: Option<Seq<FileEntryModel>>,
}

/// The mathematical value of a [`TorrentDescriptor`].
pub struct TorrentModel {
    pub announce: Seq<char>,
    pub info: InfoModel,
}

impl InfoModel {
    /// The piece hashes are whole, and the torrent is either a single file
    /// or a set of files, not both and not neither.
    pub open spec fn wf(self) -> bool {
        &&& self.pieces.len() % (PIECE_HASH_LENGTH as nat) == 0
        &&& (self.length is Some) != (self.files is Some)
    }
}

/// The texts of `strings`, in order.
pub open spec fn texts_of(strings: Seq<String>) -> Seq<Seq<char>> {
    Seq::new(strings.len(), |i: int| strings[i]@)
}

/// The models of `files`, in order.
pub open spec fn file_models_of(files: Seq<FileEntry>) -> Seq<FileEntryModel> {
    Seq::new(files.len(), |i: int| files[i]@)
}

impl View for FileEntry {
    type V = FileEntryModel;

    open spec fn view(&self) -> FileEntryModel {
        FileEntryModel { length: self.length as nat, path: texts_of(self.path@) }
    }
}

impl View for InfoDictionary {
    type V = InfoModel;

    open spec fn view(&self) -> InfoModel {
        InfoModel {
            name: self.name@,
            piece_length: self.piece_length as nat,
            pieces: self.pieces@,
            length: match self.length {
                Some(n) => Some(n as nat),
                None => None,
            },
            files: match self.files {
                Some(files) => Some(file_models_of(files@)),
                None => None,
            },
        }
    }
}

impl View for TorrentDescriptor {
    type V = TorrentModel;

    open spec fn view(&self) -> TorrentModel {
        TorrentModel { announce: self.announce@, info: self.info@ }
    }
}

/// The value that the dictionary `value` binds to the key of `field`; none
/// where `value` is no dictionary.
pub open spec fn field_of(value: Bencode, field: Field) -> Option<Bencode> {
    match value {
        Bencode::Dictionary(entries) => dict_get(entries, field.spec_key()),
        _ => None,
    }
}

/// The text of `value`, where it is a byte string that is valid UTF-8.
pub open spec fn text_of(value: Bencode) -> Option<Seq<char>> {
    match value {
        Bencode::ByteString(bytes) => spec_text(bytes),
        _ => None,
    }
}

/// The number `value`, where it is an integer that an unsigned 64-bit
/// integer holds.
pub open spec fn unsigned_of(value: Bencode) -> Option<nat> {
    match value {
        Bencode::Integer(n) => if 0 <= n <= u64::MAX {
            Some(n as nat)
        } else {
            None
        },
        _ => None,
    }
}

/// The bytes of `value`, where it is a byte string made of whole piece
/// hashes.
pub open spec fn pieces_of(value: Bencode) -> Option<Seq<u8>> {
    match value {
        Bencode::ByteString(bytes) => if bytes.len() % (PIECE_HASH_LENGTH as nat) == 0 {
            Some(bytes)
        } else {
            None
        },
        _ => None,
    }
}

/// What a required key of an info or file dictionary gives: the key must be
/// there, and `read` must accept what it is bound to.
pub open spec fn required<T>(
    dictionary: Bencode,
    field: Field,
    read: spec_fn(Bencode) -> Option<T>,
) -> Result<T, MetainfoError> {
    match field_of(dictionary, field) {
        None => Err(MetainfoError::MissingField(field)),
        Some(value) => match read(value) {
            Some(t) => Ok(t),
            None => Err(MetainfoError::TypeMismatch(field)),
        },
    }
}

/// The path that `value` holds: a list of byte strings, each of them text.
pub open spec fn spec_path(value: Bencode) -> Option<Seq<Seq<char>>> {
    match value {
        Bencode::List(segments) => if forall|i: int|
            0 <= i < segments.len() ==> text_of(#[trigger] segments[i]) is Some {
            Some(Seq::new(segments.len(), |i: int| text_of(segments[i])->Some_0))
        } else {
            None
        },
        _ => None,
    }
}

/// The file that `value` describes: a dictionary with `length` and `path`.
pub open spec fn spec_file_entry(value: Bencode) -> Result<FileEntryModel, MetainfoError> {
    if !(value is Dictionary) {
        Err(MetainfoError::TypeMismatch(Field::Files))
    } else {
        match required(value, Field::Length, |v: Bencode| unsigned_of(v)) {
            Err(e) => Err(e),
            Ok(length) => match required(value, Field::Path, |v: Bencode| spec_path(v)) {
                Err(e) => Err(e),
                Ok(path) => Ok(FileEntryModel { length, path }),
            },
        }
    }
}

/// The first index at or after `from` of an item that describes no file (the
/// number of items, where each describes one).
pub open spec fn first_bad_file(items: Seq<Bencode>, from: int) -> int
    decreases items.len() - from,
{
    if 0 <= from < items.len() && spec_file_entry(items[from]) is Ok {
        first_bad_file(items, from + 1)
    } else {
        from
    }
}

/// The files that `value` lists: each item must describe a file, and the
/// first that does not decides the failure.
pub open spec fn spec_files(value: Bencode) -> Result<Seq<FileEntryModel>, MetainfoError> {
    match value {
        Bencode::List(items) => {
            let bad = first_bad_file(items, 0);
            if bad < items.len() {
                Err(spec_file_entry(items[bad])->Err_0)
            } else {
                Ok(Seq::new(items.len(), |i: int| spec_file_entry(items[i])->Ok_0))
            }
        },
        _ => Err(MetainfoError::TypeMismatch(Field::Files)),
    }
}

/// The info dictionary that `value` holds.
///
/// `name`, `piece length` and `pieces` are required, and read in this order.
/// Then the layout is chosen by presence: where `length` is there the
/// torrent is a single file and `files` is not looked at; else where `files`
/// is there it is a set of files; else the layout is ambiguous.
pub open spec fn spec_info(value: Bencode) -> Result<InfoModel, MetainfoError> {
    match required(value, Field::Name, |v: Bencode| text_of(v)) {
        Err(e) => Err(e),
        Ok(name) => match required(value, Field::PieceLength, |v: Bencode| unsigned_of(v)) {
            Err(e) => Err(e),
            Ok(piece_length) => match required(value, Field::Pieces, |v: Bencode| pieces_of(v)) {
                Err(e) => Err(e),
                Ok(pieces) => match field_of(value, Field::Length) {
                    Some(single) => match unsigned_of(single) {
                        Some(length) => Ok(
                            InfoModel {
                                name,
                                piece_length,
                                pieces,
                                length: Some(length),
                                files: None,
                            },
                        ),
                        None => Err(MetainfoError::TypeMismatch(Field::Length)),
                    },
                    None => match field_of(value, Field::Files) {
                        Some(list) => match spec_files(list) {
                            Ok(files) => Ok(
                                InfoModel {
                                    name,
                                    piece_length,
                                    pieces,
                                    length: None,
                                    files: Some(files),
                                },
                            ),
                            Err(e) => Err(e),
                        },
                        None => Err(MetainfoError::AmbiguousLayout),
                    },
                },
            },
        },
    }
}

/// The torrent that `root` describes.
///
/// `announce` must be bound to text and `info` to a dictionary; where either
/// is absent or is something else, the field counts as missing.
pub open spec fn spec_torrent(root: Bencode) -> Result<TorrentModel, MetainfoError> {
    match field_of(root, Field::Announce) {
        Some(tracker) if text_of(tracker) is Some => match field_of(root, Field::Info) {
            Some(info) if info is Dictionary => match spec_info(info) {
                Ok(info) => Ok(TorrentModel { announce: text_of(tracker)->Some_0, info }),
                Err(e) => Err(e),
            },
            _ => Err(MetainfoError::MissingField(Field::Info)),
        },
        _ => Err(MetainfoError::MissingField(Field::Announce)),
    }
}

/// The torrent that the bytes `s` describe: the value they start with is
/// decoded and mapped; what follows that value is not looked at.
pub open spec fn spec_torrent_from_bytes(s: Seq<u8>) -> Result<TorrentModel, TorrentError> {
    match spec_decode(s) {
        Err(e) => Err(TorrentError::Decode(e)),
        Ok((root, _)) => match spec_torrent(root) {
            Ok(torrent) => Ok(torrent),
            Err(e) => Err(TorrentError::Metainfo(e)),
        },
    }
}

/// An info dictionary that maps at all maps to a well-formed one: its piece
/// hashes are whole and exactly one of `length` and `files` is populated.
pub proof fn lemma_info_well_formed(value: Bencode)
    ensures
        spec_info(value) matches Ok(info) ==> info.wf(),
{
}

/// A root that binds `announce` to text and `info` to a dictionary with a
/// text `name`, an unsigned `piece length`, `pieces` made of whole hashes
/// and an unsigned `length` maps to a single-file torrent: `length` is
/// populated with that number, `files` is absent and the piece hashes are
/// whole, whatever else the dictionaries hold.
pub proof fn lemma_single_file_layout(root: Bencode, info: Bencode)
    requires
        field_of(root, Field::Announce) matches Some(tracker) && text_of(tracker) is Some,
        field_of(root, Field::Info) == Some(info),
        info is Dictionary,
        required(info, Field::Name, |v: Bencode| text_of(v)) is Ok,
        required(info, Field::PieceLength, |v: Bencode| unsigned_of(v)) is Ok,
        required(info, Field::Pieces, |v: Bencode| pieces_of(v)) is Ok,
        required(info, Field::Length, |v: Bencode| unsigned_of(v)) is Ok,
    ensures
        spec_torrent(root) matches Ok(torrent) && torrent.info.wf() && torrent.info.files is None
            && torrent.info.length == unsigned_of(field_of(info, Field::Length)->Some_0)
            && torrent.announce == text_of(field_of(root, Field::Announce)->Some_0)->Some_0,
{
}

fn field_value(value: &BencodeValue, field: Field) -> (r: Option<&BencodeValue>)
    ensures
        match r {
            Some(found) => field_of(value@, field) == Some(found@),
            None => field_of(value@, field) is None,
        },
{
    match value {
        BencodeValue::Dictionary(entries) => entries.get(field.key()),
        _ => None,
    }
}

fn text_value(value: &BencodeValue) -> (r: Option<String>)
    ensures
        match r {
            Some(text) => text_of(value@) == Some(text@),
            None => text_of(value@) is None,
        },
{
    match value {
        BencodeValue::ByteString(bytes) => text_from_bytes(bytes.as_slice()),
        _ => None,
    }
}

fn unsigned_value(value: &BencodeValue) -> (r: Option<u64>)
    ensures
        match r {
            Some(n) => unsigned_of(value@) == Some(n as nat),
            None => unsigned_of(value@) is None,
        },
{
    match value {
        BencodeValue::Integer(n) => if *n >= 0 {
            Some(*n as u64)
        } else {
            None
        },
        _ => None,
    }
}

fn pieces_value(value: &BencodeValue) -> (r: Option<Vec<u8>>)
    ensures
        match r {
            Some(bytes) => pieces_of(value@) == Some(bytes@),
            None => pieces_of(value@) is None,
        },
{
    match value {
        BencodeValue::ByteString(bytes) => if bytes.len() % PIECE_HASH_LENGTH == 0 {
            Some(slice_to_vec(bytes.as_slice()))
        } else {
            None
        },
        _ => None,
    }
}

fn path_value(value: &BencodeValue) -> (r: Option<Vec<String>>)
    ensures
        match r {
            Some(path) => spec_path(value@) == Some(texts_of(path@)),
            None => spec_path(value@) is None,
        },
{
    match value {
        BencodeValue::List(segments) => {
            proof {
                lemma_list_view(*segments);
            }
            let ghost models = views_of(segments@);
            let mut path: Vec<String> = Vec::new();
            let mut i: usize = 0;
            while i < segments.len()
                invariant
                    i <= segments@.len(),
                    path@.len() == i,
                    models == views_of(segments@),
                    value@ == Bencode::List(models),
                    forall|j: int| 0 <= j < i ==> text_of(#[trigger] models[j]) == Some(path@[j]@),
                decreases segments@.len() - i,
            {
                match text_value(&segments[i]) {
                    Some(text) => {
                        path.push(text);
                    },
                    None => {
                        assert(text_of(models[i as int]) is None);
                        return None;
                    },
                }
                i += 1;
            }
            assert(texts_of(path@) =~= Seq::new(
                models.len(),
                |i: int| text_of(models[i])->Some_0,
            ));
            Some(path)
        },
        _ => None,
    }
}

fn file_entry(value: &BencodeValue) -> (r: Result<FileEntry, MetainfoError>)
    ensures
        match r {
            Ok(file) => spec_file_entry(value@) == Ok::<_, MetainfoError>(file@),
            Err(e) => spec_file_entry(value@) == Err::<FileEntryModel, _>(e),
        },
{
    match value {
        BencodeValue::Dictionary(_) => {},
        _ => {
            return Err(MetainfoError::TypeMismatch(Field::Files));
        },
    }
    let length = match field_value(value, Field::Length) {
        None => {
            return Err(MetainfoError::MissingField(Field::Length));
        },
        Some(found) => match unsigned_value(found) {
            None => {
                return Err(MetainfoError::TypeMismatch(Field::Length));
            },
            Some(n) => n,
        },
    };
    let path = match field_value(value, Field::Path) {
        None => {
            return Err(MetainfoError::MissingField(Field::Path));
        },
        Some(found) => match path_value(found) {
            None => {
                return Err(MetainfoError::TypeMismatch(Field::Path));
            },
            Some(path) => path,
        },
    };
    Ok(FileEntry { length, path })
}

fn files_value(value: &BencodeValue) -> (r: Result<Vec<FileEntry>, MetainfoError>)
    ensures
        match r {
            Ok(files) => spec_files(value@) == Ok::<_, MetainfoError>(file_models_of(files@)),
            Err(e) => spec_files(value@) == Err::<Seq<FileEntryModel>, _>(e),
        },
{
    match value {
        BencodeValue::List(items) => {
            proof {
                lemma_list_view(*items);
            }
            let ghost models = views_of(items@);
            let mut files: Vec<FileEntry> = Vec::new();
            let mut i: usize = 0;
            while i < items.len()
                invariant
                    i <= items@.len(),
                    files@.len() == i,
                    models == views_of(items@),
                    value@ == Bencode::List(models),
                    first_bad_file(models, 0) == first_bad_file(models, i as int),
                    forall|j: int|
                        0 <= j < i ==> spec_file_entry(#[trigger] models[j]) == Ok::<
                            _,
                            MetainfoError,
                        >(files@[j]@),
                decreases items@.len() - i,
            {
                match file_entry(&items[i]) {
                    Ok(file) => {
                        files.push(file);
                    },
                    Err(e) => {
                        return Err(e);
                    },
                }
                i += 1;
            }
            assert(file_models_of(files@) =~= Seq::new(
                models.len(),
                |i: int| spec_file_entry(models[i])->Ok_0,
            ));
            Ok(files)
        },
        _ => Err(MetainfoError::TypeMismatch(Field::Files)),
    }
}

/// The mathematical reading of what `deserialize_info` returns.
pub open spec fn info_result(r: Result<InfoDictionary, MetainfoError>) -> Result<
    InfoModel,
    MetainfoError,
> {
    match r {
        Ok(info) => Ok(info@),
        Err(e) => Err(e),
    }
}

/// The mathematical reading of what `deserialize_torrent` returns.
pub open spec fn torrent_result(r: Result<TorrentDescriptor, MetainfoError>) -> Result<
    TorrentModel,
    MetainfoError,
> {
    match r {
        Ok(torrent) => Ok(torrent@),
        Err(e) => Err(e),
    }
}

/// The mathematical reading of what `torrent_from_bytes` returns.
pub open spec fn torrent_from_bytes_result(r: Result<TorrentDescriptor, TorrentError>) -> Result<
    TorrentModel,
    TorrentError,
> {
    match r {
        Ok(torrent) => Ok(torrent@),
        Err(e) => Err(e),
    }
}

/// Maps an info dictionary to its typed form.
pub fn deserialize_info(info: &BencodeValue) -> (r: Result<InfoDictionary, MetainfoError>)
    ensures
        info_result(r) == spec_info(info@),
        r matches Ok(mapped) ==> mapped@.wf(),
{
    let name = match field_value(info, Field::Name) {
        None => {
            return Err(MetainfoError::MissingField(Field::Name));
        },
        Some(found) => match text_value(found) {
            None => {
                return Err(MetainfoError::TypeMismatch(Field::Name));
            },
            Some(text) => text,
        },
    };
    let piece_length = match field_value(info, Field::PieceLength) {
        None => {
            return Err(MetainfoError::MissingField(Field::PieceLength));
        },
        Some(found) => match unsigned_value(found) {
            None => {
                return Err(MetainfoError::TypeMismatch(Field::PieceLength));
            },
            Some(n) => n,
        },
    };
    let pieces = match field_value(info, Field::Pieces) {
        None => {
            return Err(MetainfoError::MissingField(Field::Pieces));
        },
        Some(found) => match pieces_value(found) {
            None => {
                return Err(MetainfoError::TypeMismatch(Field::Pieces));
            },
            Some(bytes) => bytes,
        },
    };
    match field_value(info, Field::Length) {
        Some(single) => match unsigned_value(single) {
            Some(length) => Ok(
                InfoDictionary { name, piece_length, pieces, length: Some(length), files: None },
            ),
            None => Err(MetainfoError::TypeMismatch(Field::Length)),
        },
        None => match field_value(info, Field::Files) {
            Some(list) => match files_value(list) {
                Ok(files) => Ok(
                    InfoDictionary { name, piece_length, pieces, length: None, files: Some(files) },
                ),
                Err(e) => Err(e),
            },
            None => Err(MetainfoError::AmbiguousLayout),
        },
    }
}

/// Maps the root value of a metainfo file to a torrent descriptor.
pub fn deserialize_torrent(torrent: &BencodeValue) -> (r: Result<TorrentDescriptor, MetainfoError>)
    ensures
        torrent_result(r) == spec_torrent(torrent@),
        r matches Ok(mapped) ==> mapped@.info.wf(),
{
    let announce = match field_value(torrent, Field::Announce) {
        None => {
            return Err(MetainfoError::MissingField(Field::Announce));
        },
        Some(found) => match text_value(found) {
            None => {
                return Err(MetainfoError::MissingField(Field::Announce));
            },
            Some(text) => text,
        },
    };
    match field_value(torrent, Field::Info) {
        Some(found) => match found {
            BencodeValue::Dictionary(_) => match deserialize_info(found) {
                Ok(info) => Ok(TorrentDescriptor { announce, info }),
                Err(e) => Err(e),
            },
            _ => Err(MetainfoError::MissingField(Field::Info)),
        },
        None => Err(MetainfoError::MissingField(Field::Info)),
    }
}

/// Decodes the bytes of a metainfo file and maps them to a torrent
/// descriptor. Bytes that follow the root value are not looked at.
pub fn torrent_from_bytes(data: &[u8]) -> (r: Result<TorrentDescriptor, TorrentError>)
    ensures
        torrent_from_bytes_result(r) == spec_torrent_from_bytes(data@),
        r matches Ok(mapped) ==> mapped@.info.wf(),
{
    match decode_bencoded_value(data) {
        Err(e) => Err(TorrentError::Decode(e)),
        Ok((root, _)) => match deserialize_torrent(&root) {
            Ok(torrent) => Ok(torrent),
            Err(e) => Err(TorrentError::Metainfo(e)),
        },
    }
}

} // verus!
