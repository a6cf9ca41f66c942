use bittorrent_core::bencode::{encode_value, Value};
use serde_bencode::value::Value as TheirValue;
use sha1::{Digest, Sha1};
use std::collections::HashMap;

// Two independently implemented encoders following the canonical rule
// must agree byte for byte, and therefore on the SHA-1 digest.

#[test]
fn canonical_encoding_agrees_with_independent_encoder() {
    let mine = Value::Dictionary(vec![
        (b"length".to_vec(), Value::Integer(92063)),
        (b"name".to_vec(), Value::ByteString(b"sample.txt".to_vec())),
        (b"piece length".to_vec(), Value::Integer(32768)),
        (b"pieces".to_vec(), Value::ByteString(vec![7u8; 20])),
    ]);
    let mine_bytes = encode_value(&mine);

    let mut map: HashMap<Vec<u8>, TheirValue> = HashMap::new();
    map.insert(b"pieces".to_vec(), TheirValue::Bytes(vec![7u8; 20]));
    map.insert(b"length".to_vec(), TheirValue::Int(92063));
    map.insert(
        b"name".to_vec(),
        TheirValue::Bytes(b"sample.txt".to_vec()),
    );
    map.insert(b"piece length".to_vec(), TheirValue::Int(32768));
    let their_bytes =
        serde_bencode::to_bytes(&TheirValue::Dict(map)).expect("their encoder should succeed");

    assert_eq!(mine_bytes, their_bytes);
    assert_eq!(
        Sha1::digest(&mine_bytes).to_vec(),
        Sha1::digest(&their_bytes).to_vec()
    );
}

#[test]
fn canonical_encoding_agrees_on_nested_values() {
    let mine = Value::Dictionary(vec![
        (
            b"a".to_vec(),
            Value::List(vec![
                Value::Integer(-1),
                Value::ByteString(b"x".to_vec()),
            ]),
        ),
        (b"b".to_vec(), Value::Integer(0)),
    ]);
    let mine_bytes = encode_value(&mine);

    let mut map: HashMap<Vec<u8>, TheirValue> = HashMap::new();
    map.insert(b"b".to_vec(), TheirValue::Int(0));
    map.insert(
        b"a".to_vec(),
        TheirValue::List(vec![
            TheirValue::Int(-1),
            TheirValue::Bytes(b"x".to_vec()),
        ]),
    );
    let their_bytes =
        serde_bencode::to_bytes(&TheirValue::Dict(map)).expect("their encoder should succeed");

    assert_eq!(mine_bytes, their_bytes);
}
