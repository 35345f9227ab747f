//! The metainfo schema, stated over the model of a decoded value.

use vstd::prelude::*;
use vstd::utf8::{decode_utf8, valid_utf8};
use crate::error::{DecodeError, Field};
use crate::hashes::{hash_chunks, HASH_LEN};
use crate::value::{lookup, Bval};

verus! {

/// The model of a `FileEntry`.
pub struct FileEntryModel {
    pub length: nat,
    pub path: Seq<Seq<char>>,
}

/// The model of a `FileLayout`.
pub enum LayoutModel {
    SingleFile { length: nat },
    MultiFile { files: Seq<FileEntryModel> },
}

/// The model of an `Info`.
pub struct InfoModel {
    pub name: Seq<char>,
    pub piece_length: nat,
    pub pieces: Seq<Seq<u8>>,
    pub layout: LayoutModel,
}

/// The model of a `Torrent`.
pub struct TorrentModel {
    pub announce: Seq<char>,
    pub info: InfoModel,
}

/// The dictionary keys of the schema, as bytes.
pub open spec fn key_announce() -> Seq<u8> {
    seq![97u8, 110, 110, 111, 117, 110, 99, 101]
}

pub open spec fn key_info() -> Seq<u8> {
    seq![105u8, 110, 102, 111]
}

pub open spec fn key_name() -> Seq<u8> {
    seq![110u8, 97, 109, 101]
}

pub open spec fn key_piece_length() -> Seq<u8> {
    seq![112u8, 105, 101, 99, 101, 32, 108, 101, 110, 103, 116, 104]
}

pub open spec fn key_pieces() -> Seq<u8> {
    seq![112u8, 105, 101, 99, 101, 115]
}

pub open spec fn key_length() -> Seq<u8> {
    seq![108u8, 101, 110, 103, 116, 104]
}

pub open spec fn key_files() -> Seq<u8> {
    seq![102u8, 105, 108, 101, 115]
}

pub open spec fn key_path() -> Seq<u8> {
    seq![112u8, 97, 116, 104]
}

/// A text field: a byte string holding UTF-8.
pub open spec fn text_field(v: Option<Bval>, f: Field) -> Result<Seq<char>, DecodeError> {
    match v {
        None => Err(DecodeError::MissingField(f)),
        Some(Bval::Bytes(b)) => if valid_utf8(b) {
            Ok(decode_utf8(b))
        } else {
            Err(DecodeError::InvalidField(f))
        },
        Some(_) => Err(DecodeError::InvalidField(f)),
    }
}

/// A count field: a non-negative integer.
pub open spec fn count_field(v: Option<Bval>, f: Field) -> Result<nat, DecodeError> {
    match v {
        None => Err(DecodeError::MissingField(f)),
        Some(Bval::Int(n)) => if n >= 0 {
            Ok(n as nat)
        } else {
            Err(DecodeError::InvalidField(f))
        },
        Some(_) => Err(DecodeError::InvalidField(f)),
    }
}

pub open spec fn is_text(v: Bval) -> bool {
    v is Bytes && valid_utf8(v->Bytes_0)
}

/// The segments of a file's path: at least one, each of them text.
pub open spec fn path_field(segs: Seq<Bval>) -> Result<Seq<Seq<char>>, DecodeError> {
    if segs.len() > 0 && forall|i: int| 0 <= i < segs.len() ==> is_text(#[trigger] segs[i]) {
        Ok(Seq::new(segs.len(), |i: int| decode_utf8(segs[i]->Bytes_0)))
    } else {
        Err(DecodeError::InvalidField(Field::Path))
    }
}

/// One entry of `files`.
pub open spec fn file_entry(v: Bval) -> Result<FileEntryModel, DecodeError> {
    match v {
        Bval::Dict(es) => match count_field(lookup(es, key_length()), Field::Length) {
            Err(e) => Err(e),
            Ok(length) => match lookup(es, key_path()) {
                None => Err(DecodeError::MissingField(Field::Path)),
                Some(Bval::List(segs)) => match path_field(segs) {
                    Err(e) => Err(e),
                    Ok(path) => Ok(FileEntryModel { length, path }),
                },
                Some(_) => Err(DecodeError::InvalidField(Field::Path)),
            },
        },
        _ => Err(DecodeError::InvalidField(Field::Files)),
    }
}

/// The entries of `files` in order; the first faulty entry decides the error.
pub open spec fn file_entries(fs: Seq<Bval>) -> Result<Seq<FileEntryModel>, DecodeError>
    decreases fs.len(),
{
    if fs.len() == 0 {
        Ok(Seq::empty())
    } else {
        match file_entries(fs.drop_last()) {
            Err(e) => Err(e),
            Ok(prev) => match file_entry(fs.last()) {
                Err(e) => Err(e),
                Ok(f) => Ok(prev.push(f)),
            },
        }
    }
}

/// Exactly one of `length` and `files` decides the layout.
pub open spec fn layout_field(es: Seq<(Seq<u8>, Bval)>) -> Result<LayoutModel, DecodeError> {
    match (lookup(es, key_length()), lookup(es, key_files())) {
        (Some(_), Some(_)) => Err(DecodeError::AmbiguousLayout),
        (None, None) => Err(DecodeError::MissingLayout),
        (Some(l), None) => match count_field(Some(l), Field::Length) {
            Err(e) => Err(e),
            Ok(length) => Ok(LayoutModel::SingleFile { length }),
        },
        (None, Some(f)) => match f {
            Bval::List(fs) => match file_entries(fs) {
                Err(e) => Err(e),
                Ok(files) => Ok(LayoutModel::MultiFile { files }),
            },
            _ => Err(DecodeError::InvalidField(Field::Files)),
        },
    }
}

/// The `pieces` field: a byte string of whole hashes.
pub open spec fn pieces_field(v: Option<Bval>) -> Result<Seq<Seq<u8>>, DecodeError> {
    match v {
        None => Err(DecodeError::MissingField(Field::Pieces)),
        Some(Bval::Bytes(b)) => if b.len() % HASH_LEN as nat != 0 {
            Err(DecodeError::InvalidHashLength)
        } else {
            Ok(hash_chunks(b))
        },
        Some(_) => Err(DecodeError::InvalidField(Field::Pieces)),
    }
}

/// The `info` dictionary; fields are checked in the order name, piece
/// length, pieces, layout.
pub open spec fn info_field(v: Option<Bval>) -> Result<InfoModel, DecodeError> {
    match v {
        None => Err(DecodeError::MissingField(Field::Info)),
        Some(Bval::Dict(es)) => match text_field(lookup(es, key_name()), Field::Name) {
            Err(e) => Err(e),
            Ok(name) => match count_field(lookup(es, key_piece_length()), Field::PieceLength) {
                Err(e) => Err(e),
                Ok(piece_length) => match pieces_field(lookup(es, key_pieces())) {
                    Err(e) => Err(e),
                    Ok(pieces) => match layout_field(es) {
                        Err(e) => Err(e),
                        Ok(layout) => Ok(InfoModel { name, piece_length, pieces, layout }),
                    },
                },
            },
        },
        Some(_) => Err(DecodeError::InvalidField(Field::Info)),
    }
}

/// A whole metainfo document; `announce` is checked before `info`.
pub open spec fn torrent_of(v: Bval) -> Result<TorrentModel, DecodeError> {
    match v {
        Bval::Dict(es) => match text_field(lookup(es, key_announce()), Field::Announce) {
            Err(e) => Err(e),
            Ok(announce) => match info_field(lookup(es, key_info())) {
                Err(e) => Err(e),
                Ok(info) => Ok(TorrentModel { announce, info }),
            },
        },
        _ => Err(DecodeError::InvalidField(Field::Root)),
    }
}

/// The layout is decided by exactly one of `length` and `files`: with both
/// or neither reading fails, and a layout that is read is of the kind of
/// the key that is present.
pub proof fn lemma_layout_exclusive(es: Seq<(Seq<u8>, Bval)>)
    ensures
        lookup(es, key_length()) is Some && lookup(es, key_files()) is Some
            ==> layout_field(es) == Err::<LayoutModel, DecodeError>(DecodeError::AmbiguousLayout),
        lookup(es, key_length()) is None && lookup(es, key_files()) is None
            ==> layout_field(es) == Err::<LayoutModel, DecodeError>(DecodeError::MissingLayout),
        layout_field(es) matches Ok(l) ==> {
            &&& (l is SingleFile <==> lookup(es, key_length()) is Some)
            &&& (l is MultiFile <==> lookup(es, key_files()) is Some)
        },
{
}

/// A torrent whose `info` dictionary holds both `length` and `files`, or
/// neither, does not read; one that reads has the layout of the key present.
pub proof fn lemma_torrent_layout_exclusive(v: Bval, ies: Seq<(Seq<u8>, Bval)>)
    requires
        v is Dict,
        lookup(v->Dict_0, key_info()) == Some(Bval::Dict(ies)),
    ensures
        (lookup(ies, key_length()) is Some) == (lookup(ies, key_files()) is Some) ==> torrent_of(v) is Err,
        torrent_of(v) matches Ok(t) ==> {
            &&& (t.info.layout is SingleFile <==> lookup(ies, key_length()) is Some)
            &&& (t.info.layout is MultiFile <==> lookup(ies, key_files()) is Some)
        },
{
    lemma_layout_exclusive(ies);
}

} // verus!
