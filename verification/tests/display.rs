use bittorrent_core::bencode::{decode_bencoded_structure, Value};

fn bs(content: &[u8]) -> Value {
    Value::ByteString(content.to_vec())
}

#[test]
fn renders_integers_bare() {
    assert_eq!(Value::Integer(42).render(), "42");
    assert_eq!(Value::Integer(-7).render(), "-7");
    assert_eq!(Value::Integer(0).render(), "0");
    assert_eq!(
        Value::Integer(i64::MIN).render(),
        "-9223372036854775808"
    );
}

#[test]
fn renders_strings_quoted_and_escaped() {
    assert_eq!(bs(b"spam").render(), "\"spam\"");
    assert_eq!(bs(b"").render(), "\"\"");
    assert_eq!(bs(b"a\"b").render(), "\"a\\\"b\"");
    assert_eq!(bs(b"a\\b").render(), "\"a\\\\b\"");
    assert_eq!(bs(&[0x00, 0xff, b'!']).render(), "\"\\x00\\xff!\"");
}

#[test]
fn renders_lists_and_dictionaries() {
    assert_eq!(Value::List(vec![]).render(), "[]");
    assert_eq!(
        Value::List(vec![Value::Integer(1), bs(b"two")]).render(),
        "[1,\"two\"]"
    );
    assert_eq!(Value::Dictionary(vec![]).render(), "{}");
    assert_eq!(
        Value::Dictionary(vec![
            (b"cow".to_vec(), bs(b"moo")),
            (b"n".to_vec(), Value::Integer(3)),
        ])
        .render(),
        "{\"cow\":\"moo\",\"n\":3}"
    );
}

#[test]
fn renders_decoded_input() {
    let decoded = decode_bencoded_structure(&b"d3:cow3:moo4:spaml1:a1:bee".to_vec())
        .expect("input should decode");
    assert_eq!(decoded.render(), "{\"cow\":\"moo\",\"spam\":[\"a\",\"b\"]}");
}
