use bittorrent::error::{DecodeError, Field};
use bittorrent::hashes::{Hashes, HashesVisitor};
use bittorrent::metainfo::{FileEntry, FileLayout, Torrent};

fn bstr(s: &[u8]) -> Vec<u8> {
    let mut out = format!("{}:", s.len()).into_bytes();
    out.extend_from_slice(s);
    out
}

/// Builds a metainfo document from the raw encodings of its `info` entries.
fn torrent_doc(info_entries: &[(&str, Vec<u8>)]) -> Vec<u8> {
    let mut out = b"d".to_vec();
    out.extend(bstr(b"announce"));
    out.extend(bstr(b"http://tracker.example/announce"));
    out.extend(bstr(b"info"));
    out.push(b'd');
    for (k, v) in info_entries {
        out.extend(bstr(k.as_bytes()));
        out.extend_from_slice(v);
    }
    out.extend(b"ee");
    out
}

fn pieces(n: usize) -> Vec<u8> {
    (0..n).map(|i| i as u8).collect()
}

fn base_entries() -> Vec<(&'static str, Vec<u8>)> {
    vec![
        ("name", bstr(b"sample.txt")),
        ("piece length", b"i32768e".to_vec()),
        ("pieces", bstr(&pieces(40))),
    ]
}

#[test]
fn hash_list_of_forty_bytes_has_two_hashes() {
    let raw = pieces(40);
    let h = HashesVisitor.visit_bytes(&raw).unwrap();
    assert_eq!(h.len(), 2);
    assert_eq!(h.0[0].to_vec(), raw[0..20].to_vec());
    assert_eq!(h.0[1].to_vec(), raw[20..40].to_vec());
}

#[test]
fn hash_list_of_thirty_nine_bytes_fails() {
    assert_eq!(HashesVisitor.visit_bytes(&pieces(39)), Err(DecodeError::InvalidHashLength));
    assert_eq!(HashesVisitor.visit_bytes(&pieces(21)), Err(DecodeError::InvalidHashLength));
}

#[test]
fn empty_hash_list() {
    assert_eq!(HashesVisitor.visit_bytes(&[]), Ok(Hashes(vec![])));
    assert_eq!(HashesVisitor.expecting(), "a list of 20-byte hashes");
}

#[test]
fn single_file_torrent() {
    let mut entries = base_entries();
    entries.push(("length", b"i92063e".to_vec()));
    let t = Torrent::from_bytes(&torrent_doc(&entries)).unwrap();
    assert_eq!(t.announce, "http://tracker.example/announce");
    assert_eq!(t.info.name, "sample.txt");
    assert_eq!(t.info.piece_length, 32768);
    assert_eq!(t.info.pieces.len(), 2);
    assert_eq!(t.info.pieces.0[1].to_vec(), pieces(40)[20..40].to_vec());
    assert_eq!(t.info.layout, FileLayout::SingleFile { length: 92063 });
}

#[test]
fn multi_file_torrent() {
    let mut files = b"l".to_vec();
    files.extend(b"d6:lengthi10e4:pathl3:dir5:a.txtee");
    files.extend(b"d6:lengthi20e4:pathl5:b.txtee");
    files.push(b'e');
    let mut entries = base_entries();
    entries.push(("files", files));
    let t = Torrent::from_bytes(&torrent_doc(&entries)).unwrap();
    assert_eq!(
        t.info.layout,
        FileLayout::MultiFile {
            files: vec![
                FileEntry { length: 10, path: vec!["dir".to_string(), "a.txt".to_string()] },
                FileEntry { length: 20, path: vec!["b.txt".to_string()] },
            ]
        }
    );
}

#[test]
fn both_layout_keys_fail() {
    let mut entries = base_entries();
    entries.push(("length", b"i5e".to_vec()));
    entries.push(("files", b"le".to_vec()));
    assert_eq!(Torrent::from_bytes(&torrent_doc(&entries)), Err(DecodeError::AmbiguousLayout));
}

#[test]
fn no_layout_key_fails() {
    let entries = base_entries();
    assert_eq!(Torrent::from_bytes(&torrent_doc(&entries)), Err(DecodeError::MissingLayout));
}

#[test]
fn missing_fields_are_named() {
    let mut entries = base_entries();
    entries.push(("length", b"i5e".to_vec()));
    for (i, field) in [Field::Name, Field::PieceLength, Field::Pieces].into_iter().enumerate() {
        let mut e = entries.clone();
        e.remove(i);
        assert_eq!(Torrent::from_bytes(&torrent_doc(&e)), Err(DecodeError::MissingField(field)));
    }
    assert_eq!(Torrent::from_bytes(b"d4:infod4:name1:aee"), Err(DecodeError::MissingField(Field::Announce)));
    assert_eq!(Torrent::from_bytes(b"d8:announce1:ae"), Err(DecodeError::MissingField(Field::Info)));
}

#[test]
fn invalid_fields_are_named() {
    assert_eq!(Torrent::from_bytes(b"le"), Err(DecodeError::InvalidField(Field::Root)));
    assert_eq!(Torrent::from_bytes(b"d8:announcei1ee"), Err(DecodeError::InvalidField(Field::Announce)));
    assert_eq!(Torrent::from_bytes(b"d8:announce1:a4:infoi1ee"), Err(DecodeError::InvalidField(Field::Info)));
    let mut entries = base_entries();
    entries.push(("length", b"i-5e".to_vec()));
    assert_eq!(Torrent::from_bytes(&torrent_doc(&entries)), Err(DecodeError::InvalidField(Field::Length)));
    let mut entries = base_entries();
    entries[0] = ("name", bstr(&[0xff, 0xfe]));
    entries.push(("length", b"i5e".to_vec()));
    assert_eq!(Torrent::from_bytes(&torrent_doc(&entries)), Err(DecodeError::InvalidField(Field::Name)));
}

#[test]
fn bad_pieces_length_fails() {
    let mut entries = base_entries();
    entries[2] = ("pieces", bstr(&pieces(39)));
    entries.push(("length", b"i5e".to_vec()));
    assert_eq!(Torrent::from_bytes(&torrent_doc(&entries)), Err(DecodeError::InvalidHashLength));
}

#[test]
fn bad_file_entries_fail() {
    let mut entries = base_entries();
    entries.push(("files", b"ld6:lengthi1e4:pathleee".to_vec()));
    assert_eq!(Torrent::from_bytes(&torrent_doc(&entries)), Err(DecodeError::InvalidField(Field::Path)));
    let mut entries = base_entries();
    entries.push(("files", b"ld4:pathl1:aeee".to_vec()));
    assert_eq!(Torrent::from_bytes(&torrent_doc(&entries)), Err(DecodeError::MissingField(Field::Length)));
    let mut entries = base_entries();
    entries.push(("files", b"li1ee".to_vec()));
    assert_eq!(Torrent::from_bytes(&torrent_doc(&entries)), Err(DecodeError::InvalidField(Field::Files)));
}

#[test]
fn decode_errors_pass_through() {
    assert_eq!(Torrent::from_bytes(b""), Err(DecodeError::UnrecognizedToken));
    assert_eq!(Torrent::from_bytes(b"d8:announce"), Err(DecodeError::UnrecognizedToken));
}

#[test]
fn total_length_of_each_layout() {
    let mut entries = base_entries();
    entries.push(("length", b"i92063e".to_vec()));
    let t = Torrent::from_bytes(&torrent_doc(&entries)).unwrap();
    assert_eq!(t.info.total_length(), Some(92063));

    let mut entries = base_entries();
    entries.push(("files", b"ld6:lengthi10e4:pathl1:aeed6:lengthi20e4:pathl1:beee".to_vec()));
    let t = Torrent::from_bytes(&torrent_doc(&entries)).unwrap();
    assert_eq!(t.info.total_length(), Some(30));

    let mut entries = base_entries();
    entries.push(("files", b"le".to_vec()));
    let t = Torrent::from_bytes(&torrent_doc(&entries)).unwrap();
    assert_eq!(t.info.total_length(), Some(0));
}

#[test]
fn total_length_that_overflows() {
    let big = format!(
        "ld6:lengthi{0}e4:pathl1:aeed6:lengthi{0}e4:pathl1:beed6:lengthi{0}e4:pathl1:ceee",
        i64::MAX
    );
    let mut entries = base_entries();
    entries.push(("files", big.into_bytes()));
    let t = Torrent::from_bytes(&torrent_doc(&entries)).unwrap();
    assert_eq!(t.info.total_length(), None);
}
