use bensor::lexer::{self, tokenize};
use bensor::parser::{self, Bencode};
use bensor::{from_bytes, from_str, Error};

#[test]
fn canonical_order_any_insertion() {
    let scrambled = Bencode::Dictionary(vec![
        (b"b".to_vec(), Bencode::Integer(2)),
        (b"a".to_vec(), Bencode::Integer(1)),
        (b"c".to_vec(), Bencode::Integer(3)),
    ])
    .into_bytes();
    assert_eq!(scrambled, b"d1:ai1e1:bi2e1:ci3ee".to_vec());
}

#[test]
fn integer_edge_cases() {
    assert_eq!(from_str("i0e").unwrap(), Bencode::Integer(0));
    assert_eq!(from_str("i-0e").unwrap(), Bencode::Integer(0));
    assert_eq!(from_str("i42e").unwrap(), Bencode::Integer(42));
    assert_eq!(from_str("i-42e").unwrap(), Bencode::Integer(-42));
    assert_eq!(
        from_str("i9223372036854775807e").unwrap(),
        Bencode::Integer(i64::MAX)
    );
    assert_eq!(
        from_str("i-9223372036854775808e").unwrap(),
        Bencode::Integer(i64::MIN)
    );
    assert_eq!(
        from_str("i9223372036854775808e"),
        Err(Error::Lexer(lexer::Error::InvalidInteger))
    );
    assert_eq!(
        from_str("i12"),
        Err(Error::Lexer(lexer::Error::InvalidInteger))
    );
    assert_eq!(
        from_str("iabce"),
        Err(Error::Lexer(lexer::Error::InvalidInteger))
    );
}

#[test]
fn byte_string_exactness() {
    assert_eq!(
        from_str("4:spam").unwrap(),
        Bencode::ByteString(b"spam".to_vec())
    );
    assert_eq!(from_str("0:").unwrap(), Bencode::ByteString(Vec::new()));
    assert_eq!(
        from_str("5:ab"),
        Err(Error::Lexer(lexer::Error::TruncatedByteString))
    );
    assert_eq!(
        from_str("4x:abcd"),
        Err(Error::Lexer(lexer::Error::InvalidLength))
    );
}

#[test]
fn structural_errors() {
    assert_eq!(from_str("le").unwrap(), Bencode::List(Vec::new()));
    assert_eq!(
        from_str("l"),
        Err(Error::Parser(parser::Error::UnterminatedList))
    );
    assert_eq!(
        from_str("di1e1:ae"),
        Err(Error::Parser(parser::Error::InvalidDictionaryKey))
    );
    assert_eq!(from_str(""), Err(Error::Parser(parser::Error::NoTokens)));
    assert_eq!(
        from_str("e"),
        Err(Error::Parser(parser::Error::UnexpectedEnd))
    );
    assert_eq!(
        from_str("d3:foo"),
        Err(Error::Parser(parser::Error::UnterminatedDictionary))
    );
    assert_eq!(
        from_str("x"),
        Err(Error::Lexer(lexer::Error::UnrecognizedLeadingByte(b'x')))
    );
    assert_eq!(tokenize(b""), Err(lexer::Error::EmptyInput));
}

#[test]
fn depth_guard() {
    let deep = vec![b'l'; 70];
    assert_eq!(
        from_bytes(&deep),
        Err(Error::Parser(parser::Error::MaxDepthExceeded))
    );
}

#[test]
fn end_to_end_dictionary() {
    let bytes = b"d3:bar4:spam3:fooi42ee";
    let value = from_bytes(bytes).unwrap();
    assert_eq!(
        value,
        Bencode::Dictionary(vec![
            (b"bar".to_vec(), Bencode::ByteString(b"spam".to_vec())),
            (b"foo".to_vec(), Bencode::Integer(42)),
        ])
    );
    let reencoded = from_bytes(bytes).unwrap().into_bytes();
    assert_eq!(reencoded, bytes.to_vec());
}

#[test]
fn nested_list_scenario() {
    let value = from_str("l4:spami42ei666e5:tumore").unwrap();
    assert_eq!(
        value,
        Bencode::List(vec![
            Bencode::ByteString(b"spam".to_vec()),
            Bencode::Integer(42),
            Bencode::Integer(666),
            Bencode::ByteString(b"tumor".to_vec()),
        ])
    );
}

#[test]
fn round_trip_scrambled_dictionary() {
    let original = Bencode::Dictionary(vec![
        (b"zz".to_vec(), Bencode::Integer(1)),
        (
            b"aa".to_vec(),
            Bencode::List(vec![Bencode::ByteString(b"x".to_vec())]),
        ),
    ]);
    let bytes = original.into_bytes();
    let decoded = from_bytes(&bytes).unwrap();
    // The decoded tree is the canonical form: keys in ascending order.
    assert_eq!(
        decoded,
        Bencode::Dictionary(vec![
            (
                b"aa".to_vec(),
                Bencode::List(vec![Bencode::ByteString(b"x".to_vec())]),
            ),
            (b"zz".to_vec(), Bencode::Integer(1)),
        ])
    );
}

#[test]
fn encode_decode_idempotent() {
    let canonical = b"d3:agei30e4:name5:alicee".to_vec();
    let once = from_bytes(&canonical).unwrap().into_bytes();
    assert_eq!(once, canonical);
    let twice = from_bytes(&once).unwrap().into_bytes();
    assert_eq!(twice, canonical);
}

#[test]
fn duplicate_keys_last_write_wins() {
    let value = from_str("d1:ai1e1:ai2ee").unwrap();
    assert_eq!(
        value,
        Bencode::Dictionary(vec![(b"a".to_vec(), Bencode::Integer(2))])
    );
}

#[test]
fn error_messages_exist() {
    let err = from_str("5:ab").unwrap_err();
    assert!(!err.message().is_empty());
    let err = from_str("l").unwrap_err();
    assert!(!err.message().is_empty());
}
