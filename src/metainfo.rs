//! The typed metainfo record, read from a decoded value tree.

use vstd::prelude::*;
use vstd::utf8::{decode_utf8, valid_utf8};
use crate::decode::{decode, MAX_DEPTH};
use crate::error::{DecodeError, Field};
use crate::grammar::parse_value;
use crate::hashes::{Hashes, HashesVisitor};
use crate::schema::{
    count_field, file_entries, file_entry, info_field, is_text, key_announce, key_files, key_info,
    key_length, key_name, key_path, key_piece_length, key_pieces, layout_field, path_field,
    pieces_field, text_field, torrent_of, FileEntryModel, InfoModel, LayoutModel, TorrentModel,
};
use crate::value::{lemma_list_view, values_view, BencodeValue, Bval};

verus! {

/// One file of a multi-file torrent.
#[derive(Debug, PartialEq, Eq)]
pub struct FileEntry {
    /// The length of the file in bytes.
    pub length: u64,
    /// The directories leading to the file, then the file's own name.
    pub path: Vec<String>,
}

/// Whether the torrent is one file or a directory of files; the files of a
/// directory are taken as concatenated in the order listed.
#[derive(Debug, PartialEq, Eq)]
pub enum FileLayout {
    SingleFile { length: u64 },
    MultiFile { files: Vec<FileEntry> },
}

/// The `info` dictionary of a torrent.
#[derive(Debug, PartialEq, Eq)]
pub struct Info {
    /// The suggested name of the file or directory.
    pub name: String,
    /// The number of bytes in each piece; the last piece may be shorter.
    pub piece_length: u64,
    /// The SHA-1 hash of each piece, in piece order.
    pub pieces: Hashes,
    pub layout: FileLayout,
}

/// A metainfo (`.torrent`) document.
#[derive(Debug, PartialEq, Eq)]
pub struct Torrent {
    /// The URL of the tracker.
    pub announce: String,
    pub info: Info,
}

impl FileEntry {
    pub open spec fn view(&self) -> FileEntryModel {
        FileEntryModel {
            length: self.length as nat,
            path: Seq::new(self.path@.len(), |i: int| self.path@[i]@),
        }
    }
}

pub open spec fn files_view(files: Seq<FileEntry>) -> Seq<FileEntryModel> {
    Seq::new(files.len(), |i: int| files[i]@)
}

impl FileLayout {
    pub open spec fn view(&self) -> LayoutModel {
        match self {
            FileLayout::SingleFile { length } => LayoutModel::SingleFile { length: *length as nat },
            FileLayout::MultiFile { files } => LayoutModel::MultiFile { files: files_view(files@) },
        }
    }
}

impl Info {
    pub open spec fn view(&self) -> InfoModel {
        InfoModel {
            name: self.name@,
            piece_length: self.piece_length as nat,
            pieces: self.pieces@,
            layout: self.layout@,
        }
    }
}

impl Torrent {
    pub open spec fn view(&self) -> TorrentModel {
        TorrentModel { announce: self.announce@, info: self.info@ }
    }
}

pub open spec fn opt_view(v: Option<&BencodeValue>) -> Option<Bval> {
    match v {
        Some(x) => Some(x@),
        None => None,
    }
}

/// Relies on `String::from_utf8`: it accepts exactly the well-formed UTF-8
/// byte sequences and keeps the characters they encode.
#[verifier::external_body]
fn utf8_text(b: Vec<u8>) -> (r: Option<String>)
    ensures
        r is Some <==> valid_utf8(b@),
        r matches Some(t) ==> t@ == decode_utf8(b@),
{
    String::from_utf8(b).ok()
}

fn text_value(v: Option<&BencodeValue>, f: Field) -> (r: Result<String, DecodeError>)
    ensures
        match r {
            Ok(t) => text_field(opt_view(v), f) == Ok::<Seq<char>, DecodeError>(t@),
            Err(e) => text_field(opt_view(v), f) == Err::<Seq<char>, DecodeError>(e),
        },
{
    match v {
        None => Err(DecodeError::MissingField(f)),
        Some(BencodeValue::ByteString(b)) => match utf8_text(b.clone()) {
            Some(t) => Ok(t),
            None => Err(DecodeError::InvalidField(f)),
        },
        Some(_) => Err(DecodeError::InvalidField(f)),
    }
}

fn count_value(v: Option<&BencodeValue>, f: Field) -> (r: Result<u64, DecodeError>)
    ensures
        match r {
            Ok(n) => count_field(opt_view(v), f) == Ok::<nat, DecodeError>(n as nat),
            Err(e) => count_field(opt_view(v), f) == Err::<nat, DecodeError>(e),
        },
{
    match v {
        None => Err(DecodeError::MissingField(f)),
        Some(BencodeValue::Integer(n)) => if *n >= 0 {
            Ok(*n as u64)
        } else {
            Err(DecodeError::InvalidField(f))
        },
        Some(_) => Err(DecodeError::InvalidField(f)),
    }
}

fn path_value(segs: &Vec<BencodeValue>) -> (r: Result<Vec<String>, DecodeError>)
    ensures
        match r {
            Ok(p) => path_field(values_view(segs@))
                == Ok::<Seq<Seq<char>>, DecodeError>(Seq::new(p@.len(), |i: int| p@[i]@)),
            Err(e) => path_field(values_view(segs@)) == Err::<Seq<Seq<char>>, DecodeError>(e),
        },
{
    let ghost vs = values_view(segs@);
    if segs.len() == 0 {
        return Err(DecodeError::InvalidField(Field::Path));
    }
    let mut out: Vec<String> = Vec::new();
    let mut i: usize = 0;
    while i < segs.len()
        invariant
            vs == values_view(segs@),
            i <= segs.len(),
            out@.len() == i,
            forall|t: int| 0 <= t < i ==> is_text(#[trigger] vs[t]) && out@[t]@ == decode_utf8(vs[t]->Bytes_0),
        decreases segs.len() - i,
    {
        let t = match &segs[i] {
            BencodeValue::ByteString(b) => match utf8_text(b.clone()) {
                Some(t) => t,
                None => {
                    proof {
                        assert(!is_text(vs[i as int]));
                    }
                    return Err(DecodeError::InvalidField(Field::Path));
                },
            },
            _ => {
                proof {
                    assert(!is_text(vs[i as int]));
                }
                return Err(DecodeError::InvalidField(Field::Path));
            },
        };
        out.push(t);
        i = i + 1;
    }
    proof {
        assert(Seq::new(out@.len(), |i: int| out@[i]@) =~= Seq::new(
            vs.len(),
            |i: int| decode_utf8(vs[i]->Bytes_0),
        ));
    }
    Ok(out)
}

fn file_value(v: &BencodeValue) -> (r: Result<FileEntry, DecodeError>)
    ensures
        match r {
            Ok(f) => file_entry(v@) == Ok::<FileEntryModel, DecodeError>(f@),
            Err(e) => file_entry(v@) == Err::<FileEntryModel, DecodeError>(e),
        },
{
    if !matches!(v, BencodeValue::Dictionary(_)) {
        return Err(DecodeError::InvalidField(Field::Files));
    }
    let length_key: [u8; 6] = [108, 101, 110, 103, 116, 104];
    let path_key: [u8; 4] = [112, 97, 116, 104];
    proof {
        assert(length_key@ =~= key_length());
        assert(path_key@ =~= key_path());
    }
    let length = match count_value(v.get(&length_key), Field::Length) {
        Ok(n) => n,
        Err(e) => {
            return Err(e);
        },
    };
    match v.get(&path_key) {
        None => Err(DecodeError::MissingField(Field::Path)),
        Some(BencodeValue::List(segs)) => {
            proof {
                lemma_list_view(*segs);
            }
            match path_value(segs) {
                Ok(path) => Ok(FileEntry { length, path }),
                Err(e) => Err(e),
            }
        },
        Some(_) => Err(DecodeError::InvalidField(Field::Path)),
    }
}

proof fn lemma_entries_error_stays(fs: Seq<Bval>, k: int, m: int)
    requires
        0 <= k <= m <= fs.len(),
        file_entries(fs.take(k)) is Err,
    ensures
        file_entries(fs.take(m)) == file_entries(fs.take(k)),
    decreases m - k,
{
    if m > k {
        lemma_entries_error_stays(fs, k, m - 1);
        assert(fs.take(m).drop_last() =~= fs.take(m - 1));
    }
}

fn files_value(fs: &Vec<BencodeValue>) -> (r: Result<Vec<FileEntry>, DecodeError>)
    ensures
        match r {
            Ok(files) => file_entries(values_view(fs@))
                == Ok::<Seq<FileEntryModel>, DecodeError>(files_view(files@)),
            Err(e) => file_entries(values_view(fs@)) == Err::<Seq<FileEntryModel>, DecodeError>(e),
        },
{
    let ghost vs = values_view(fs@);
    let mut out: Vec<FileEntry> = Vec::new();
    let mut i: usize = 0;
    proof {
        assert(vs.take(0) =~= Seq::<Bval>::empty());
        assert(files_view(out@) =~= Seq::<FileEntryModel>::empty());
    }
    while i < fs.len()
        invariant
            vs == values_view(fs@),
            i <= fs.len(),
            out@.len() == i,
            file_entries(vs.take(i as int)) == Ok::<Seq<FileEntryModel>, DecodeError>(files_view(out@)),
        decreases fs.len() - i,
    {
        proof {
            assert(vs.take(i + 1).drop_last() =~= vs.take(i as int));
            assert(vs.take(i + 1).last() == fs@[i as int]@);
        }
        match file_value(&fs[i]) {
            Ok(f) => {
                let ghost before = out@;
                out.push(f);
                proof {
                    assert(files_view(out@) =~= files_view(before).push(out@[i as int]@));
                }
            },
            Err(e) => {
                proof {
                    lemma_entries_error_stays(vs, i + 1, vs.len() as int);
                    assert(vs.take(vs.len() as int) =~= vs);
                }
                return Err(e);
            },
        }
        i = i + 1;
    }
    proof {
        assert(vs.take(vs.len() as int) =~= vs);
    }
    Ok(out)
}

fn layout_value(d: &BencodeValue) -> (r: Result<FileLayout, DecodeError>)
    requires
        d@ is Dict,
    ensures
        match r {
            Ok(l) => layout_field(d@->Dict_0) == Ok::<LayoutModel, DecodeError>(l@),
            Err(e) => layout_field(d@->Dict_0) == Err::<LayoutModel, DecodeError>(e),
        },
{
    let length_key: [u8; 6] = [108, 101, 110, 103, 116, 104];
    let files_key: [u8; 5] = [102, 105, 108, 101, 115];
    proof {
        assert(length_key@ =~= key_length());
        assert(files_key@ =~= key_files());
    }
    let length = d.get(&length_key);
    let files = d.get(&files_key);
    match (length, files) {
        (Some(_), Some(_)) => Err(DecodeError::AmbiguousLayout),
        (None, None) => Err(DecodeError::MissingLayout),
        (Some(_), None) => match count_value(length, Field::Length) {
            Ok(n) => Ok(FileLayout::SingleFile { length: n }),
            Err(e) => Err(e),
        },
        (None, Some(BencodeValue::List(fs))) => {
            proof {
                lemma_list_view(*fs);
            }
            match files_value(fs) {
                Ok(entries) => Ok(FileLayout::MultiFile { files: entries }),
                Err(e) => Err(e),
            }
        },
        (None, Some(_)) => Err(DecodeError::InvalidField(Field::Files)),
    }
}

fn pieces_value(v: Option<&BencodeValue>) -> (r: Result<Hashes, DecodeError>)
    ensures
        match r {
            Ok(h) => pieces_field(opt_view(v)) == Ok::<Seq<Seq<u8>>, DecodeError>(h@),
            Err(e) => pieces_field(opt_view(v)) == Err::<Seq<Seq<u8>>, DecodeError>(e),
        },
{
    match v {
        None => Err(DecodeError::MissingField(Field::Pieces)),
        Some(BencodeValue::ByteString(b)) => HashesVisitor.visit_bytes(b.as_slice()),
        Some(_) => Err(DecodeError::InvalidField(Field::Pieces)),
    }
}

fn info_value(v: Option<&BencodeValue>) -> (r: Result<Info, DecodeError>)
    ensures
        match r {
            Ok(info) => info_field(opt_view(v)) == Ok::<InfoModel, DecodeError>(info@),
            Err(e) => info_field(opt_view(v)) == Err::<InfoModel, DecodeError>(e),
        },
{
    let d = match v {
        None => {
            return Err(DecodeError::MissingField(Field::Info));
        },
        Some(d) => d,
    };
    if !matches!(d, BencodeValue::Dictionary(_)) {
        return Err(DecodeError::InvalidField(Field::Info));
    }
    let name_key: [u8; 4] = [110, 97, 109, 101];
    let piece_length_key: [u8; 12] = [112, 105, 101, 99, 101, 32, 108, 101, 110, 103, 116, 104];
    let pieces_key: [u8; 6] = [112, 105, 101, 99, 101, 115];
    proof {
        assert(name_key@ =~= key_name());
        assert(piece_length_key@ =~= key_piece_length());
        assert(pieces_key@ =~= key_pieces());
    }
    let name = match text_value(d.get(&name_key), Field::Name) {
        Ok(t) => t,
        Err(e) => {
            return Err(e);
        },
    };
    let piece_length = match count_value(d.get(&piece_length_key), Field::PieceLength) {
        Ok(n) => n,
        Err(e) => {
            return Err(e);
        },
    };
    let pieces = match pieces_value(d.get(&pieces_key)) {
        Ok(h) => h,
        Err(e) => {
            return Err(e);
        },
    };
    let layout = match layout_value(d) {
        Ok(l) => l,
        Err(e) => {
            return Err(e);
        },
    };
    Ok(Info { name, piece_length, pieces, layout })
}

impl Torrent {
    /// Reads a torrent from a decoded value: `announce` first, then `info`
    /// with its fields in the order name, piece length, pieces, layout.
    pub fn from_value(v: &BencodeValue) -> (r: Result<Torrent, DecodeError>)
        ensures
            match r {
                Ok(t) => torrent_of(v@) == Ok::<TorrentModel, DecodeError>(t@),
                Err(e) => torrent_of(v@) == Err::<TorrentModel, DecodeError>(e),
            },
    {
        if !matches!(v, BencodeValue::Dictionary(_)) {
            return Err(DecodeError::InvalidField(Field::Root));
        }
        let announce_key: [u8; 8] = [97, 110, 110, 111, 117, 110, 99, 101];
        let info_key: [u8; 4] = [105, 110, 102, 111];
        proof {
            assert(announce_key@ =~= key_announce());
            assert(info_key@ =~= key_info());
        }
        let announce = match text_value(v.get(&announce_key), Field::Announce) {
            Ok(t) => t,
            Err(e) => {
                return Err(e);
            },
        };
        match info_value(v.get(&info_key)) {
            Ok(info) => Ok(Torrent { announce, info }),
            Err(e) => Err(e),
        }
    }

    /// Decodes a bencoded document and reads it as a torrent.
    pub fn from_bytes(bytes: &[u8]) -> (r: Result<Torrent, DecodeError>)
        ensures
            match parse_value(bytes@, 0, MAX_DEPTH as nat) {
                Err(e) => r == Err::<Torrent, DecodeError>(e),
                Ok((v, _)) => match r {
                    Ok(t) => torrent_of(v) == Ok::<TorrentModel, DecodeError>(t@),
                    Err(e) => torrent_of(v) == Err::<TorrentModel, DecodeError>(e),
                },
            },
    {
        match decode(bytes) {
            Ok((v, _)) => Torrent::from_value(&v),
            Err(e) => Err(e),
        }
    }
}

/// The sum of the file lengths, in the order listed.
pub open spec fn total_of(files: Seq<FileEntryModel>) -> nat
    decreases files.len(),
{
    if files.len() == 0 {
        0
    } else {
        total_of(files.drop_last()) + files.last().length
    }
}

/// The number of bytes that the torrent describes.
pub open spec fn layout_total(l: LayoutModel) -> nat {
    match l {
        LayoutModel::SingleFile { length } => length,
        LayoutModel::MultiFile { files } => total_of(files),
    }
}

impl Info {
    /// The number of bytes that the torrent describes: the single file's
    /// length, or the sum of the files' lengths. `None` where that sum does
    /// not fit in a `u64`.
    pub fn total_length(&self) -> (r: Option<u64>)
        ensures
            layout_total(self@.layout) <= u64::MAX ==> r == Some(layout_total(self@.layout) as u64),
            layout_total(self@.layout) > u64::MAX ==> r is None,
    {
        match &self.layout {
            FileLayout::SingleFile { length } => Some(*length),
            FileLayout::MultiFile { files } => {
                let ghost fv = files_view(files@);
                let mut sum: u64 = 0;
                let mut i: usize = 0;
                proof {
                    assert(fv.take(0) =~= Seq::<FileEntryModel>::empty());
                }
                while i < files.len()
                    invariant
                        fv == files_view(files@),
                        self@.layout == (LayoutModel::MultiFile { files: fv }),
                        i <= files.len(),
                        sum == total_of(fv.take(i as int)),
                    decreases files.len() - i,
                {
                    proof {
                        assert(fv.take(i + 1).drop_last() =~= fv.take(i as int));
                        assert(fv.take(i + 1).last() == files@[i as int]@);
                    }
                    let len = files[i].length;
                    if sum > u64::MAX - len {
                        proof {
                            lemma_total_grows(fv, i + 1, fv.len() as int);
                            assert(fv.take(fv.len() as int) =~= fv);
                        }
                        return None;
                    }
                    sum = sum + len;
                    i = i + 1;
                }
                proof {
                    assert(fv.take(fv.len() as int) =~= fv);
                }
                Some(sum)
            },
        }
    }
}

proof fn lemma_total_grows(files: Seq<FileEntryModel>, k: int, m: int)
    requires
        0 <= k <= m <= files.len(),
    ensures
        total_of(files.take(k)) <= total_of(files.take(m)),
    decreases m - k,
{
    if m > k {
        lemma_total_grows(files, k, m - 1);
        assert(files.take(m).drop_last() =~= files.take(m - 1));
    }
}

} // verus!
