use bittorrent::decode::decode;
use bittorrent::value::BencodeValue;

fn sample_values() -> Vec<BencodeValue> {
    vec![
        BencodeValue::Integer(0),
        BencodeValue::Integer(42),
        BencodeValue::Integer(-7),
        BencodeValue::Integer(i64::MAX),
        BencodeValue::Integer(i64::MIN),
        BencodeValue::ByteString(vec![]),
        BencodeValue::ByteString((0..=255u8).collect()),
        BencodeValue::List(vec![]),
        BencodeValue::Dictionary(vec![]),
        BencodeValue::List(vec![
            BencodeValue::Integer(1),
            BencodeValue::ByteString(b"spam".to_vec()),
            BencodeValue::List(vec![BencodeValue::Dictionary(vec![])]),
        ]),
        BencodeValue::Dictionary(vec![
            (b"a".to_vec(), BencodeValue::Integer(1)),
            (b"b".to_vec(), BencodeValue::List(vec![BencodeValue::Integer(-2)])),
            (b"a".to_vec(), BencodeValue::ByteString(b"dup".to_vec())),
        ]),
    ]
}

#[test]
fn encodes_canonically() {
    assert_eq!(BencodeValue::Integer(42).to_bytes(), b"i42e".to_vec());
    assert_eq!(BencodeValue::Integer(-7).to_bytes(), b"i-7e".to_vec());
    assert_eq!(BencodeValue::Integer(0).to_bytes(), b"i0e".to_vec());
    assert_eq!(
        BencodeValue::Integer(i64::MIN).to_bytes(),
        b"i-9223372036854775808e".to_vec()
    );
    assert_eq!(BencodeValue::ByteString(b"spam".to_vec()).to_bytes(), b"4:spam".to_vec());
    let list = BencodeValue::List(vec![
        BencodeValue::ByteString(b"spam".to_vec()),
        BencodeValue::ByteString(b"eggs".to_vec()),
    ]);
    assert_eq!(list.to_bytes(), b"l4:spam4:eggse".to_vec());
    let dict = BencodeValue::Dictionary(vec![
        (b"cow".to_vec(), BencodeValue::ByteString(b"moo".to_vec())),
        (b"spam".to_vec(), BencodeValue::ByteString(b"eggs".to_vec())),
    ]);
    assert_eq!(dict.to_bytes(), b"d3:cow3:moo4:spam4:eggse".to_vec());
}

#[test]
fn decoding_an_encoding_gives_the_value_back() {
    for v in sample_values() {
        let enc = v.to_bytes();
        let (back, rest) = decode(&enc).unwrap();
        assert_eq!(back, v);
        assert!(rest.is_empty());
    }
}

#[test]
fn decoding_an_encoding_stops_at_its_end() {
    for v in sample_values() {
        let mut enc = v.to_bytes();
        let len = enc.len();
        enc.extend_from_slice(b"i9e");
        let (back, rest) = decode(&enc).unwrap();
        assert_eq!(back, v);
        assert_eq!(rest, b"i9e");
        assert_eq!(enc.len() - rest.len(), len);
    }
}
