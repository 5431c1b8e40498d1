use bensor::lexer::{parse as lex, read_byte_string, str_len, tokenize, Token};
use bensor::parser::{parse, Bencode};
use bensor::{from_bytes, from_str, Error};

#[test]
fn test_token_shift() {
    let size = Token::Integer(-666).shift();
    assert_eq!(size, 6);

    let size = Token::Integer(666).shift();
    assert_eq!(size, 5);
}

#[test]
fn test_str_len() {
    assert_eq!(str_len(123), 3);
    assert_eq!(str_len(1234), 4);
    assert_eq!(str_len(12345), 5);
}

#[test]
fn test_read_byte_string() {
    let bytes = b"5:abcdefgh";
    assert_eq!(read_byte_string(bytes), Ok((b"abcde".to_vec(), 7)));
}

#[test]
fn test_tokenize_int() {
    let bytes = b"i1234e";

    let left = tokenize(bytes).unwrap();
    let right = (Token::Integer(1234), 6);

    assert_eq!(left, right);
}

#[test]
fn test_tokenize_byte_string() {
    let bytes = b"6:abcdefgh";
    let left = tokenize(bytes).unwrap();
    let right = (Token::ByteString(b"abcdef".to_vec()), 8);

    assert_eq!(left, right);
}

#[test]
fn test_parse() {
    let bytes = b"d3:bar4:spam3:fooi42ee";
    let left = lex(bytes).unwrap();
    let right = vec![
        Token::Dictionary,
        Token::ByteString(b"bar".to_vec()),
        Token::ByteString(b"spam".to_vec()),
        Token::ByteString(b"foo".to_vec()),
        Token::Integer(42),
        Token::End,
    ];
    assert_eq!(left, right);
}

#[test]
fn test_from_str() {
    let left = from_str("d3:bar4:spam3:fooi42ee").unwrap();

    let right = Bencode::Dictionary(vec![
        (b"bar".to_vec(), Bencode::ByteString(b"spam".to_vec())),
        (b"foo".to_vec(), Bencode::Integer(42)),
    ]);

    assert_eq!(left, right);
}

#[test]
fn test_from_bytes() {
    let left = from_bytes("l4:spami42ei666e5:tumore".as_bytes()).unwrap();

    let right = Bencode::List(vec![
        Bencode::ByteString(b"spam".to_vec()),
        Bencode::Integer(42),
        Bencode::Integer(666),
        Bencode::ByteString(b"tumor".to_vec()),
    ]);

    assert_eq!(left, right);
}

#[test]
fn test_parse_list() {
    let tokens = vec![
        Token::List,
        Token::Integer(55),
        Token::ByteString(b"str".to_vec()),
        Token::End,
    ];
    let left = parse(tokens).unwrap();
    let right = Bencode::List(vec![
        Bencode::Integer(55),
        Bencode::ByteString(b"str".to_vec()),
    ]);
    assert_eq!(left, right);
}

#[test]
fn test_parse_nested_list() {
    let tokens = vec![
        Token::List,
        Token::Integer(55),
        Token::List,
        Token::ByteString(b"str".to_vec()),
        Token::End,
        Token::End,
    ];
    let left = parse(tokens).unwrap();
    let right = Bencode::List(vec![
        Bencode::Integer(55),
        Bencode::List(vec![Bencode::ByteString(b"str".to_vec())]),
    ]);
    assert_eq!(left, right);
}

#[test]
fn test_parse_dict() {
    let tokens = vec![
        Token::Dictionary,
        Token::ByteString(b"bar".to_vec()),
        Token::ByteString(b"spam".to_vec()),
        Token::ByteString(b"foo".to_vec()),
        Token::Integer(42),
        Token::End,
    ];
    let left = parse(tokens).unwrap();

    let right = Bencode::Dictionary(vec![
        (b"bar".to_vec(), Bencode::ByteString(b"spam".to_vec())),
        (b"foo".to_vec(), Bencode::Integer(42)),
    ]);

    assert_eq!(left, right);
}

#[test]
fn test_parse_nested_dict() {
    let tokens = vec![
        Token::Dictionary,
        Token::ByteString(b"bar".to_vec()),
        Token::ByteString(b"spam".to_vec()),
        Token::ByteString(b"foo".to_vec()),
        Token::Dictionary,
        Token::ByteString(b"nested".to_vec()),
        Token::Integer(-123),
        Token::End,
        Token::End,
    ];
    let left = parse(tokens).unwrap();

    let right = Bencode::Dictionary(vec![
        (b"bar".to_vec(), Bencode::ByteString(b"spam".to_vec())),
        (
            b"foo".to_vec(),
            Bencode::Dictionary(vec![(b"nested".to_vec(), Bencode::Integer(-123))]),
        ),
    ]);
    assert_eq!(left, right);
}

#[test]
fn test_list_into_bytes() {
    let left = Bencode::List(vec![
        Bencode::Integer(2137),
        Bencode::ByteString(b"Hello World!".to_vec()),
        Bencode::Integer(2020),
    ])
    .into_bytes();

    let right = b"li2137e12:Hello World!i2020ee".to_vec();
    assert_eq!(left, right);
}

#[test]
fn test_dict_into_bytes() {
    let left = Bencode::Dictionary(vec![
        (b"current_year".to_vec(), Bencode::Integer(2020)),
        (b"power_level".to_vec(), Bencode::Integer(9001)),
        (
            b"some_random_bytes".to_vec(),
            Bencode::ByteString(b"welcome_my_dear_bytes".to_vec()),
        ),
        (
            b"integer_list".to_vec(),
            Bencode::List(vec![
                Bencode::Integer(5),
                Bencode::Integer(10),
                Bencode::Integer(100),
            ]),
        ),
    ])
    .into_bytes();

    let right = b"d12:current_yeari2020e12:integer_listli5ei10ei100ee11:power_leveli9001e17:some_random_bytes21:welcome_my_dear_bytese".to_vec();
    assert_eq!(left, right);
}

#[test]
fn test_nested_dict_into_bytes() {
    let left = Bencode::Dictionary(vec![
        (
            b"nested".to_vec(),
            Bencode::Dictionary(vec![
                (b"abc".to_vec(), Bencode::Integer(123)),
                (b"def".to_vec(), Bencode::Integer(456)),
            ]),
        ),
        (
            b"list".to_vec(),
            Bencode::List(vec![
                Bencode::Integer(1),
                Bencode::Integer(2),
                Bencode::Integer(1000),
            ]),
        ),
    ])
    .into_bytes();

    let right = b"d4:listli1ei2ei1000ee6:nestedd3:abci123e3:defi456eee".to_vec();
    assert_eq!(left, right);
}
