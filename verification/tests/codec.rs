use bittorrent_core::bencode::{
    decode_bencoded_structure, dict_insert, encode_value, ParseError, Value,
};

fn decode(bytes: &[u8]) -> Result<Value, ParseError> {
    decode_bencoded_structure(&bytes.to_vec())
}

fn bs(content: &[u8]) -> Value {
    Value::ByteString(content.to_vec())
}

#[test]
fn decode_byte_string_spam() {
    assert_eq!(decode(b"4:spam"), Ok(bs(b"spam")));
}

#[test]
fn decode_negative_integer() {
    assert_eq!(decode(b"i-42e"), Ok(Value::Integer(-42)));
}

#[test]
fn decode_list_of_strings() {
    assert_eq!(
        decode(b"l4:spam4:eggse"),
        Ok(Value::List(vec![bs(b"spam"), bs(b"eggs")]))
    );
}

#[test]
fn decode_dictionary() {
    assert_eq!(
        decode(b"d3:cow3:moo4:spam4:eggse"),
        Ok(Value::Dictionary(vec![
            (b"cow".to_vec(), bs(b"moo")),
            (b"spam".to_vec(), bs(b"eggs")),
        ]))
    );
}

#[test]
fn decode_zero_and_empty_values() {
    assert_eq!(decode(b"i0e"), Ok(Value::Integer(0)));
    assert_eq!(decode(b"0:"), Ok(bs(b"")));
    assert_eq!(decode(b"le"), Ok(Value::List(vec![])));
    assert_eq!(decode(b"de"), Ok(Value::Dictionary(vec![])));
}

#[test]
fn decode_integer_extremes() {
    assert_eq!(
        decode(b"i9223372036854775807e"),
        Ok(Value::Integer(i64::MAX))
    );
    assert_eq!(
        decode(b"i-9223372036854775808e"),
        Ok(Value::Integer(i64::MIN))
    );
}

#[test]
fn decode_leading_zero_integer_fails() {
    assert_eq!(decode(b"i01e"), Err(ParseError::InvalidInteger));
}

#[test]
fn decode_minus_zero_fails() {
    assert_eq!(decode(b"i-0e"), Err(ParseError::InvalidInteger));
}

#[test]
fn decode_integer_syntax_errors() {
    assert_eq!(decode(b"ie"), Err(ParseError::InvalidInteger));
    assert_eq!(decode(b"i-e"), Err(ParseError::InvalidInteger));
    assert_eq!(decode(b"i12"), Err(ParseError::InvalidInteger));
    assert_eq!(decode(b"i1x2e"), Err(ParseError::InvalidInteger));
}

#[test]
fn decode_integer_overflow() {
    assert_eq!(
        decode(b"i9223372036854775808e"),
        Err(ParseError::IntegerOverflow)
    );
    assert_eq!(
        decode(b"i-9223372036854775809e"),
        Err(ParseError::IntegerOverflow)
    );
    assert_eq!(
        decode(b"i99999999999999999999999999999999e"),
        Err(ParseError::IntegerOverflow)
    );
}

#[test]
fn decode_truncated_byte_string_fails() {
    assert_eq!(decode(b"5:ab"), Err(ParseError::TruncatedByteString));
}

#[test]
fn decode_length_syntax_errors() {
    assert_eq!(decode(b"04:spam"), Err(ParseError::InvalidLength));
    assert_eq!(decode(b"4spam"), Err(ParseError::InvalidLength));
    assert_eq!(decode(b"4"), Err(ParseError::InvalidLength));
}

#[test]
fn decode_missing_dictionary_value_fails() {
    assert_eq!(decode(b"d3:keye"), Err(ParseError::UnterminatedDictionary));
}

#[test]
fn decode_unterminated_compounds_fail() {
    assert_eq!(decode(b"l4:spam"), Err(ParseError::UnterminatedList));
    assert_eq!(decode(b"l"), Err(ParseError::UnterminatedList));
    assert_eq!(decode(b"d"), Err(ParseError::UnterminatedDictionary));
    assert_eq!(decode(b"d3:key"), Err(ParseError::UnterminatedDictionary));
}

#[test]
fn decode_non_string_dictionary_key_fails() {
    assert_eq!(decode(b"di1e4:spame"), Err(ParseError::InvalidDictionaryKey));
}

#[test]
fn decode_unrecognized_tag_fails() {
    assert_eq!(decode(b"x"), Err(ParseError::UnrecognizedTag));
}

#[test]
fn decode_empty_input_fails() {
    assert_eq!(decode(b""), Err(ParseError::UnexpectedEnd));
}

#[test]
fn decode_trailing_data_fails() {
    assert_eq!(decode(b"4:spamx"), Err(ParseError::TrailingData));
    assert_eq!(decode(b"i1ei2e"), Err(ParseError::TrailingData));
}

#[test]
fn encode_known_values() {
    assert_eq!(encode_value(&Value::Integer(-42)), b"i-42e".to_vec());
    assert_eq!(encode_value(&Value::Integer(0)), b"i0e".to_vec());
    assert_eq!(encode_value(&bs(b"spam")), b"4:spam".to_vec());
    assert_eq!(encode_value(&bs(b"")), b"0:".to_vec());
    assert_eq!(
        encode_value(&Value::List(vec![bs(b"spam"), bs(b"eggs")])),
        b"l4:spam4:eggse".to_vec()
    );
    assert_eq!(
        encode_value(&Value::Dictionary(vec![
            (b"cow".to_vec(), bs(b"moo")),
            (b"spam".to_vec(), bs(b"eggs")),
        ])),
        b"d3:cow3:moo4:spam4:eggse".to_vec()
    );
}

#[test]
fn encode_integer_extremes() {
    assert_eq!(
        encode_value(&Value::Integer(i64::MIN)),
        b"i-9223372036854775808e".to_vec()
    );
    assert_eq!(
        encode_value(&Value::Integer(i64::MAX)),
        b"i9223372036854775807e".to_vec()
    );
}

#[test]
fn encode_of_decode_reproduces_sorted_input() {
    let inputs: Vec<&[u8]> = vec![
        b"4:spam",
        b"i-42e",
        b"i0e",
        b"l4:spam4:eggse",
        b"d3:cow3:moo4:spam4:eggse",
        b"d8:announce21:http://example.com/an4:infod6:lengthi12e4:name4:filee1:li5ee",
        b"le",
        b"de",
        b"lli1ei2eeli3eee",
        b"d1:ad1:bd1:cl0:eeee",
    ];
    for input in inputs {
        let decoded = decode(input).expect("input should decode");
        assert_eq!(encode_value(&decoded), input.to_vec());
    }
}

#[test]
fn encode_of_decode_reproduces_unsorted_dictionary_bytes() {
    // The decoder keeps entry order, so re-encoding reproduces even a
    // non-canonical (unsorted) file byte for byte.
    let input: &[u8] = b"d4:spam4:eggs3:cow3:mooe";
    let decoded = decode(input).expect("input should decode");
    assert_eq!(encode_value(&decoded), input.to_vec());
}

#[test]
fn decode_of_encode_round_trips_value_trees() {
    let trees = vec![
        Value::Integer(7),
        Value::Integer(-1),
        Value::Integer(i64::MIN),
        bs(b""),
        bs(b"\x00\xff\x01binary"),
        Value::List(vec![]),
        Value::List(vec![Value::Integer(1), bs(b"two"), Value::List(vec![Value::Integer(3)])]),
        Value::Dictionary(vec![
            (b"a".to_vec(), Value::Integer(1)),
            (
                b"b".to_vec(),
                Value::Dictionary(vec![(b"c".to_vec(), bs(b"\xde\xad"))]),
            ),
            (b"d".to_vec(), Value::List(vec![bs(b"x")])),
        ]),
    ];
    for tree in trees {
        let encoded = encode_value(&tree);
        assert_eq!(decode_bencoded_structure(&encoded), Ok(tree));
    }
}

#[test]
fn dict_insert_sorts_keys_whatever_the_insertion_order() {
    let mut entries = Vec::new();
    dict_insert(&mut entries, b"spam".to_vec(), bs(b"eggs"));
    dict_insert(&mut entries, b"cow".to_vec(), bs(b"moo"));
    let built = Value::Dictionary(entries);
    assert_eq!(encode_value(&built), b"d3:cow3:moo4:spam4:eggse".to_vec());
}

#[test]
fn dict_insert_orders_prefixes_and_replaces_equal_keys() {
    let mut entries = Vec::new();
    dict_insert(&mut entries, b"ab".to_vec(), Value::Integer(1));
    dict_insert(&mut entries, b"a".to_vec(), Value::Integer(2));
    dict_insert(&mut entries, b"abc".to_vec(), Value::Integer(3));
    dict_insert(&mut entries, b"ab".to_vec(), Value::Integer(4));
    assert_eq!(
        Value::Dictionary(entries),
        Value::Dictionary(vec![
            (b"a".to_vec(), Value::Integer(2)),
            (b"ab".to_vec(), Value::Integer(4)),
            (b"abc".to_vec(), Value::Integer(3)),
        ])
    );
}

#[test]
fn duplicate_keys_are_kept_in_stored_order() {
    // The decoder does not police key uniqueness; it keeps what the
    // input carries, and lookup takes the first match.
    let input: &[u8] = b"d1:ai1e1:ai2ee";
    let decoded = decode_bencoded_structure(&input.to_vec()).expect("input should decode");
    assert_eq!(
        decoded,
        Value::Dictionary(vec![
            (b"a".to_vec(), Value::Integer(1)),
            (b"a".to_vec(), Value::Integer(2)),
        ])
    );
    assert_eq!(decoded.dict_get(&b"a".to_vec()), Some(&Value::Integer(1)));
    assert_eq!(encode_value(&decoded), input.to_vec());
}

#[test]
fn accessors_are_typed_and_fallible() {
    let v = Value::Integer(12);
    assert_eq!(v.as_integer(), Some(12));
    assert!(v.as_byte_string().is_none());
    assert!(v.as_list().is_none());
    assert!(v.as_dictionary().is_none());
    let v = bs(b"abc");
    assert_eq!(v.as_byte_string(), Some(&b"abc".to_vec()));
    assert!(v.as_integer().is_none());
    let v = Value::List(vec![Value::Integer(1)]);
    assert_eq!(v.as_list().map(|xs| xs.len()), Some(1));
    let v = Value::Dictionary(vec![]);
    assert_eq!(v.as_dictionary().map(|ps| ps.len()), Some(0));
}

#[test]
fn dict_get_finds_first_entry_in_stored_order() {
    let v = Value::Dictionary(vec![
        (b"cow".to_vec(), bs(b"moo")),
        (b"spam".to_vec(), bs(b"eggs")),
    ]);
    assert_eq!(v.dict_get(&b"spam".to_vec()), Some(&bs(b"eggs")));
    assert_eq!(v.dict_get(&b"cow".to_vec()), Some(&bs(b"moo")));
    assert_eq!(v.dict_get(&b"missing".to_vec()), None);
    assert_eq!(Value::Integer(1).dict_get(&b"spam".to_vec()), None);
}

#[test]
fn binary_content_survives_byte_strings() {
    let mut raw: Vec<u8> = vec![b'3', b':'];
    raw.extend_from_slice(&[0x00, 0xff, 0x65]);
    let decoded = decode_bencoded_structure(&raw).expect("binary string should decode");
    assert_eq!(decoded, bs(&[0x00, 0xff, 0x65]));
}
