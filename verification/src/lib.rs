//! Bencode decoding and the torrent metainfo model built on top of it.
//!
//! Raw bytes are decoded into a [`value::BencodeValue`] tree by
//! [`decode::decode_bencoded_value`]; [`metainfo::deserialize_torrent`] projects
//! such a tree into a typed [`metainfo::TorrentDescriptor`].

pub mod decode;
pub mod grammar;
pub mod laws;
pub mod metainfo;
pub mod order;
pub mod text;
pub mod value;
