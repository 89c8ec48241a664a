use bittorrent_core::BValue;
use bittorrent_core::bencode::Bencode;
use bittorrent_core::bencode::bvalue::entries_put_first;
use bittorrent_core::bencode::decoder::BencodeError;
use bittorrent_core::bencode::decoder::Decoder;
use bittorrent_core::bencode::encoder::Encoder;

#[test]
fn test_parse_integer() {
    let mut decoder = Decoder::new("i42e");
    assert_eq!(decoder.parse().unwrap(), BValue::Int(42));

    let mut decoder = Decoder::new("i-42e");
    assert_eq!(decoder.parse().unwrap(), BValue::Int(-42));

    let mut decoder = Decoder::new("i0e");
    assert_eq!(decoder.parse().unwrap(), BValue::Int(0));
}

#[test]
fn test_parse_string() {
    let mut decoder = Decoder::new("4:spam");
    assert_eq!(decoder.parse().unwrap(), BValue::Bytes(b"spam".to_vec()));

    let mut decoder = Decoder::new("0:");
    assert_eq!(decoder.parse().unwrap(), BValue::Bytes(Vec::new()));

    let mut decoder = Decoder::new("13:Hello, World!");
    assert_eq!(decoder.parse().unwrap(), BValue::Bytes(b"Hello, World!".to_vec()));
}

#[test]
fn test_parse_list() {
    let mut decoder = Decoder::new("l4:spami42ee");
    assert_eq!(
        decoder.parse().unwrap(),
        BValue::List(vec![BValue::Bytes(b"spam".to_vec()), BValue::Int(42)])
    );

    let mut decoder = Decoder::new("le");
    assert_eq!(decoder.parse().unwrap(), BValue::List(Vec::new()));

    let mut decoder = Decoder::new("li1ei2ei3ee");
    assert_eq!(
        decoder.parse().unwrap(),
        BValue::List(vec![BValue::Int(1), BValue::Int(2), BValue::Int(3)])
    );
}

#[test]
fn test_parse_dict() {
    let mut decoder = Decoder::new("d3:bar4:spam3:fooi42ee");
    assert_eq!(
        decoder.parse().unwrap(),
        BValue::Dict(vec![
            (b"bar".to_vec(), BValue::Bytes(b"spam".to_vec())),
            (b"foo".to_vec(), BValue::Int(42)),
        ])
    );

    let mut decoder = Decoder::new("de");
    assert_eq!(decoder.parse().unwrap(), BValue::Dict(Vec::new()));
}

#[test]
fn test_parse_nested() {
    let mut decoder = Decoder::new("d4:listl1:a1:b1:ce4:dictd1:x1:y1:zi42eee");
    assert_eq!(
        decoder.parse().unwrap(),
        BValue::Dict(vec![
            (
                b"dict".to_vec(),
                BValue::Dict(vec![
                    (b"x".to_vec(), BValue::Bytes(b"y".to_vec())),
                    (b"z".to_vec(), BValue::Int(42)),
                ])
            ),
            (
                b"list".to_vec(),
                BValue::List(vec![
                    BValue::Bytes(b"a".to_vec()),
                    BValue::Bytes(b"b".to_vec()),
                    BValue::Bytes(b"c".to_vec()),
                ])
            ),
        ])
    );
}

#[test]
fn test_error_cases() {
    let cases = vec![
        ("i42", "Unexpected end of input"),
        ("4spam", "Unexpected end of input"),
        ("l1:a", "Unterminated list"),
        ("d1:a", "Unterminated dictionary"),
        ("d1:ai1e1:b", "Unterminated dictionary"),
        ("di1ei2ee", "Dictionary key must be a string"),
    ];

    for (input, expected_err) in cases {
        let mut decoder = Decoder::new(input);
        let err = decoder.parse().unwrap_err();
        assert!(
            err.message().contains(expected_err),
            "for input '{}', expected error containing '{}', got '{}'",
            input,
            expected_err,
            err.message()
        );
    }
}

#[test]
fn test_error_variants() {
    assert_eq!(BValue::from_str("").unwrap_err(), BencodeError::UnexpectedEof);
    assert_eq!(BValue::from_str("i4x2e").unwrap_err(), BencodeError::BadDigit);
    assert_eq!(BValue::from_str("i042e").unwrap_err(), BencodeError::BadDigit);
    assert_eq!(BValue::from_str("i-0e").unwrap_err(), BencodeError::BadDigit);
    assert_eq!(
        BValue::from_str("i99999999999999999999e").unwrap_err(),
        BencodeError::IntOverflow
    );
    assert_eq!(BValue::from_str("04:spam").unwrap_err(), BencodeError::BadLengthPrefix);
    assert_eq!(BValue::from_str("x").unwrap_err(), BencodeError::UnhandledPrefix(b'x'));
    assert_eq!(BValue::from_str("i1ei2e").unwrap_err(), BencodeError::TrailingData);
}

#[test]
fn test_encode_integer() {
    let mut encoder = Encoder::new();
    encoder.encode_value(&BValue::Int(42));
    assert_eq!(encoder.output, b"i42e".to_vec());

    let mut encoder = Encoder::new();
    encoder.encode_value(&BValue::Int(-42));
    assert_eq!(encoder.output, b"i-42e".to_vec());

    let mut encoder = Encoder::new();
    encoder.encode_value(&BValue::Int(0));
    assert_eq!(encoder.output, b"i0e".to_vec());
}

#[test]
fn test_encode_string() {
    assert_eq!(BValue::Bytes(b"spam".to_vec()).to_bytes().unwrap(), b"4:spam".to_vec());
    assert_eq!(BValue::Bytes(Vec::new()).to_bytes().unwrap(), b"0:".to_vec());
    assert_eq!(
        BValue::Bytes(b"Hello, World!".to_vec()).to_bytes().unwrap(),
        b"13:Hello, World!".to_vec()
    );
}

#[test]
fn test_encode_list() {
    assert_eq!(
        BValue::List(vec![BValue::Bytes(b"spam".to_vec()), BValue::Int(42)])
            .to_bytes()
            .unwrap(),
        b"l4:spami42ee".to_vec()
    );
    assert_eq!(BValue::List(Vec::new()).to_bytes().unwrap(), b"le".to_vec());
    assert_eq!(
        BValue::List(vec![BValue::Int(1), BValue::Int(2), BValue::Int(3)])
            .to_bytes()
            .unwrap(),
        b"li1ei2ei3ee".to_vec()
    );
}

#[test]
fn test_encode_dict() {
    // keys inserted out of order come out in ascending key order
    let mut es = Vec::new();
    entries_put_first(&mut es, b"foo".to_vec(), BValue::Int(42));
    entries_put_first(&mut es, b"bar".to_vec(), BValue::Bytes(b"spam".to_vec()));
    assert_eq!(BValue::Dict(es).to_bytes().unwrap(), b"d3:bar4:spam3:fooi42ee".to_vec());

    assert_eq!(BValue::Dict(Vec::new()).to_bytes().unwrap(), b"de".to_vec());
}

#[test]
fn test_encode_nested() {
    let mut inner = Vec::new();
    entries_put_first(&mut inner, b"z".to_vec(), BValue::Int(42));
    entries_put_first(&mut inner, b"x".to_vec(), BValue::Bytes(b"y".to_vec()));
    let mut outer = Vec::new();
    entries_put_first(&mut outer, b"list".to_vec(), BValue::List(vec![
        BValue::Bytes(b"a".to_vec()),
        BValue::Bytes(b"b".to_vec()),
        BValue::Bytes(b"c".to_vec()),
    ]));
    entries_put_first(&mut outer, b"dict".to_vec(), BValue::Dict(inner));
    let encoded = BValue::Dict(outer).to_bytes().unwrap();

    let decoded = BValue::from_bytes(&encoded).unwrap();
    assert_eq!(
        decoded,
        BValue::Dict(vec![
            (
                b"dict".to_vec(),
                BValue::Dict(vec![
                    (b"x".to_vec(), BValue::Bytes(b"y".to_vec())),
                    (b"z".to_vec(), BValue::Int(42)),
                ])
            ),
            (
                b"list".to_vec(),
                BValue::List(vec![
                    BValue::Bytes(b"a".to_vec()),
                    BValue::Bytes(b"b".to_vec()),
                    BValue::Bytes(b"c".to_vec()),
                ])
            ),
        ])
    );
}

#[test]
fn test_encode_decode_roundtrip() {
    let mut d1 = Vec::new();
    entries_put_first(&mut d1, b"x".to_vec(), BValue::Bytes(b"y".to_vec()));
    entries_put_first(&mut d1, b"z".to_vec(), BValue::Int(42));
    let mut d2inner = Vec::new();
    entries_put_first(&mut d2inner, b"x".to_vec(), BValue::Bytes(b"y".to_vec()));
    entries_put_first(&mut d2inner, b"z".to_vec(), BValue::Int(42));
    let mut d2 = Vec::new();
    entries_put_first(&mut d2, b"list".to_vec(), BValue::List(vec![
        BValue::Bytes(b"a".to_vec()),
        BValue::Bytes(b"b".to_vec()),
        BValue::Bytes(b"c".to_vec()),
    ]));
    entries_put_first(&mut d2, b"dict".to_vec(), BValue::Dict(d2inner));
    let test_cases = vec![
        BValue::Int(42),
        BValue::Bytes(b"Hello, World!".to_vec()),
        BValue::List(vec![
            BValue::Bytes(b"a".to_vec()),
            BValue::Bytes(b"b".to_vec()),
            BValue::Bytes(b"c".to_vec()),
        ]),
        BValue::Dict(d1),
        BValue::Dict(d2),
    ];

    for value in test_cases {
        let encoded = value.to_bytes().unwrap();
        let decoded = BValue::from_bytes(&encoded).unwrap();
        assert_eq!(value, decoded);
    }
}

#[test]
fn test_decode_encode_roundtrip() {
    let test_cases = vec!["i42e", "4:spam", "l4:spami42ee", "d3:bar4:spam3:fooi42ee"];

    for input in test_cases {
        let decoded = Bencode::decode(input).unwrap();
        let encoded = decoded.to_bytes().unwrap();
        assert_eq!(input.as_bytes().to_vec(), encoded);
    }
}

#[test]
fn test_unsorted_dict_keys_are_sorted_on_decode() {
    // the wire had foo before bar; the decoded value holds keys ascending
    let decoded = Bencode::decode("d3:fooi42e3:bar4:spame").unwrap();
    assert_eq!(
        decoded,
        BValue::Dict(vec![
            (b"bar".to_vec(), BValue::Bytes(b"spam".to_vec())),
            (b"foo".to_vec(), BValue::Int(42)),
        ])
    );
    // a repeated key keeps the later binding
    let decoded = Bencode::decode("d1:ai1e1:ai2ee").unwrap();
    assert_eq!(decoded, BValue::Dict(vec![(b"a".to_vec(), BValue::Int(2))]));
}
