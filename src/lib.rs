//! Bencode decoding and the BitTorrent metainfo schema built on top of it.

pub mod decode;
pub mod encoding;
pub mod error;
pub mod grammar;
pub mod hashes;
pub mod metainfo;
pub mod schema;
pub mod value;
