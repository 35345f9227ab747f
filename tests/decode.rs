use bittorrent::decode::{decode, MAX_DEPTH};
use bittorrent::error::DecodeError;
use bittorrent::value::BencodeValue;

fn bytes(s: &str) -> BencodeValue {
    BencodeValue::ByteString(s.as_bytes().to_vec())
}

#[test]
fn decodes_positive_integer() {
    let (v, rest) = decode(b"i42e").unwrap();
    assert_eq!(v, BencodeValue::Integer(42));
    assert!(rest.is_empty());
}

#[test]
fn decodes_negative_integer() {
    let (v, rest) = decode(b"i-7e").unwrap();
    assert_eq!(v, BencodeValue::Integer(-7));
    assert!(rest.is_empty());
}

#[test]
fn integer_extremes() {
    assert_eq!(decode(b"i9223372036854775807e").unwrap().0, BencodeValue::Integer(i64::MAX));
    assert_eq!(decode(b"i-9223372036854775808e").unwrap().0, BencodeValue::Integer(i64::MIN));
    assert_eq!(decode(b"i9223372036854775808e"), Err(DecodeError::MalformedInteger));
    assert_eq!(decode(b"i-9223372036854775809e"), Err(DecodeError::MalformedInteger));
}

#[test]
fn integer_is_permissive() {
    assert_eq!(decode(b"i007e").unwrap().0, BencodeValue::Integer(7));
    assert_eq!(decode(b"i-0e").unwrap().0, BencodeValue::Integer(0));
}

#[test]
fn malformed_integers() {
    assert_eq!(decode(b"i e"), Err(DecodeError::MalformedInteger));
    assert_eq!(decode(b"ie"), Err(DecodeError::MalformedInteger));
    assert_eq!(decode(b"i-e"), Err(DecodeError::MalformedInteger));
    assert_eq!(decode(b"i+5e"), Err(DecodeError::MalformedInteger));
    assert_eq!(decode(b"i12"), Err(DecodeError::MalformedInteger));
}

#[test]
fn decodes_byte_string() {
    let (v, rest) = decode(b"4:spam").unwrap();
    assert_eq!(v, bytes("spam"));
    assert!(rest.is_empty());
}

#[test]
fn decodes_empty_and_binary_byte_strings() {
    assert_eq!(decode(b"0:").unwrap().0, BencodeValue::ByteString(vec![]));
    let (v, rest) = decode(&[b'3', b':', 0, 255, b'e']).unwrap();
    assert_eq!(v, BencodeValue::ByteString(vec![0, 255, b'e']));
    assert!(rest.is_empty());
}

#[test]
fn byte_string_errors() {
    assert_eq!(decode(b"3:ab"), Err(DecodeError::TruncatedString));
    assert_eq!(decode(b"3ab"), Err(DecodeError::MalformedLength));
    assert_eq!(decode(b"3x:abc"), Err(DecodeError::MalformedLength));
    assert_eq!(decode(b"99999999999999999999999:a"), Err(DecodeError::TruncatedString));
}

#[test]
fn byte_string_of_every_length_up_to_a_few_hundred() {
    for len in 0..300usize {
        let content: Vec<u8> = (0..len).map(|i| (i % 256) as u8).collect();
        let mut enc = format!("{}:", len).into_bytes();
        enc.extend_from_slice(&content);
        let (v, rest) = decode(&enc).unwrap();
        assert_eq!(v, BencodeValue::ByteString(content));
        assert!(rest.is_empty());
    }
}

#[test]
fn decodes_list() {
    let (v, rest) = decode(b"l4:spam4:eggse").unwrap();
    assert_eq!(v, BencodeValue::List(vec![bytes("spam"), bytes("eggs")]));
    assert!(rest.is_empty());
    assert_eq!(decode(b"le").unwrap().0, BencodeValue::List(vec![]));
}

#[test]
fn decodes_dictionary() {
    let (v, rest) = decode(b"d3:cow3:moo4:spam4:eggse").unwrap();
    assert_eq!(
        v,
        BencodeValue::Dictionary(vec![
            (b"cow".to_vec(), bytes("moo")),
            (b"spam".to_vec(), bytes("eggs")),
        ])
    );
    assert!(rest.is_empty());
    assert_eq!(v.get(b"cow"), Some(&bytes("moo")));
    assert_eq!(v.get(b"spam"), Some(&bytes("eggs")));
    assert_eq!(v.get(b"dog"), None);
}

#[test]
fn repeated_key_last_one_wins() {
    let (v, _) = decode(b"d1:ai1e1:bi2e1:ai3ee").unwrap();
    assert_eq!(v.get(b"a"), Some(&BencodeValue::Integer(3)));
    assert_eq!(v.get(b"b"), Some(&BencodeValue::Integer(2)));
    assert_eq!(BencodeValue::Integer(1).get(b"a"), None);
}

#[test]
fn remainder_is_handed_back() {
    let (v, rest) = decode(b"i1ei2e").unwrap();
    assert_eq!(v, BencodeValue::Integer(1));
    assert_eq!(rest, b"i2e");
}

#[test]
fn malformed_inputs_fail_with_named_errors() {
    assert_eq!(decode(b""), Err(DecodeError::UnrecognizedToken));
    assert_eq!(decode(b"i e"), Err(DecodeError::MalformedInteger));
    assert_eq!(decode(b"3:ab"), Err(DecodeError::TruncatedString));
    assert_eq!(decode(b"d3:keye"), Err(DecodeError::UnrecognizedToken));
}

#[test]
fn other_structural_errors() {
    assert_eq!(decode(b"x"), Err(DecodeError::UnrecognizedToken));
    assert_eq!(decode(b"l"), Err(DecodeError::UnterminatedCollection));
    assert_eq!(decode(b"li1e"), Err(DecodeError::UnterminatedCollection));
    assert_eq!(decode(b"d3:keyi1e"), Err(DecodeError::UnterminatedCollection));
    assert_eq!(decode(b"di1ei2ee"), Err(DecodeError::NonStringKey));
    assert_eq!(decode(b"lxe"), Err(DecodeError::UnrecognizedToken));
}

#[test]
fn nesting_depth_is_bounded() {
    let deep_ok = format!("{}{}", "l".repeat(MAX_DEPTH), "e".repeat(MAX_DEPTH));
    assert!(decode(deep_ok.as_bytes()).is_ok());
    let too_deep = format!("{}{}", "l".repeat(MAX_DEPTH + 1), "e".repeat(MAX_DEPTH + 1));
    assert_eq!(decode(too_deep.as_bytes()), Err(DecodeError::NestingTooDeep));
    let dicts = format!("{}i1e{}", "d1:a".repeat(MAX_DEPTH + 1), "e".repeat(MAX_DEPTH + 1));
    assert_eq!(decode(dicts.as_bytes()), Err(DecodeError::NestingTooDeep));
}

#[test]
fn nested_structure() {
    let (v, rest) = decode(b"d4:listl1:ai-3edee1:xlee").unwrap();
    assert!(rest.is_empty());
    assert_eq!(
        v,
        BencodeValue::Dictionary(vec![
            (
                b"list".to_vec(),
                BencodeValue::List(vec![
                    bytes("a"),
                    BencodeValue::Integer(-3),
                    BencodeValue::Dictionary(vec![]),
                ])
            ),
            (b"x".to_vec(), BencodeValue::List(vec![])),
        ])
    );
}
