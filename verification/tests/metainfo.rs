use bittorrent_core::bencode::{encode_value, Value};
use bittorrent_core::torrent::{
    hash_info, to_hex, torrent_info_from_bytes, torrent_info_from_value, SchemaError,
    TorrentFileError,
};
use sha1::{Digest, Sha1};

fn bs(content: &[u8]) -> Value {
    Value::ByteString(content.to_vec())
}

fn sample_pieces() -> Vec<u8> {
    let mut pieces = Vec::new();
    for i in 0..40u8 {
        pieces.push(i);
    }
    pieces
}

fn sample_info() -> Value {
    Value::Dictionary(vec![
        (b"length".to_vec(), Value::Integer(92063)),
        (b"name".to_vec(), bs(b"sample.txt")),
        (b"piece length".to_vec(), Value::Integer(32768)),
        (b"pieces".to_vec(), bs(&sample_pieces())),
    ])
}

fn sample_torrent() -> Value {
    Value::Dictionary(vec![
        (
            b"announce".to_vec(),
            bs(b"http://tracker.example.com/announce"),
        ),
        (b"info".to_vec(), sample_info()),
    ])
}

#[test]
fn extracts_all_fields() {
    let t = torrent_info_from_value(&sample_torrent()).expect("sample should extract");
    assert_eq!(t.announce, "http://tracker.example.com/announce");
    assert_eq!(t.length, 92063);
    assert_eq!(t.piece_length, 32768);
    assert_eq!(t.piece_hashes.len(), 2);
    assert_eq!(t.piece_hashes[0], sample_pieces()[0..20].to_vec());
    assert_eq!(t.piece_hashes[1], sample_pieces()[20..40].to_vec());
    assert_eq!(t.info_hash.len(), 20);
}

#[test]
fn info_hash_is_sha1_of_encoded_info() {
    let info = sample_info();
    let encoded = encode_value(&info);
    let expected: Vec<u8> = Sha1::digest(&encoded).to_vec();
    let t = torrent_info_from_value(&sample_torrent()).expect("sample should extract");
    assert_eq!(t.info_hash, expected);
    assert_eq!(hash_info(&info), expected);
}

#[test]
fn info_hash_deterministic_across_independent_builds() {
    let first = hash_info(&sample_info());
    let second = hash_info(&sample_info());
    assert_eq!(first, second);
}

#[test]
fn info_hash_independent_of_construction_order() {
    // Built by sorted insertion in a different order than the literal
    // construction, the canonical encoding and the digest coincide.
    let mut entries = Vec::new();
    bittorrent_core::bencode::dict_insert(
        &mut entries,
        b"pieces".to_vec(),
        bs(&sample_pieces()),
    );
    bittorrent_core::bencode::dict_insert(
        &mut entries,
        b"name".to_vec(),
        bs(b"sample.txt"),
    );
    bittorrent_core::bencode::dict_insert(
        &mut entries,
        b"piece length".to_vec(),
        Value::Integer(32768),
    );
    bittorrent_core::bencode::dict_insert(
        &mut entries,
        b"length".to_vec(),
        Value::Integer(92063),
    );
    let built = Value::Dictionary(entries);
    assert_eq!(encode_value(&built), encode_value(&sample_info()));
    assert_eq!(hash_info(&built), hash_info(&sample_info()));
}

#[test]
fn hash_of_known_vector() {
    // SHA-1("3:abc"), the bencoding of the byte string "abc".
    let digest = hash_info(&bs(b"abc"));
    assert_eq!(digest, Sha1::digest(b"3:abc").to_vec());
    assert_ne!(digest, b"3:abc".to_vec());
}

#[test]
fn hex_rendering() {
    assert_eq!(to_hex(&vec![0x01, 0xab, 0x00, 0xff]), "01ab00ff");
    assert_eq!(to_hex(&vec![]), "");
}

#[test]
fn info_hash_hex_matches_hex_crate() {
    let t = torrent_info_from_value(&sample_torrent()).expect("sample should extract");
    assert_eq!(t.info_hash_hex(), hex::encode(&t.info_hash));
    assert_eq!(t.info_hash_hex().len(), 40);
}

#[test]
fn non_ascii_announce_is_decoded_as_utf8() {
    let announce = "http://tr\u{00e4}cker.example/announce";
    let root = Value::Dictionary(vec![
        (b"announce".to_vec(), bs(announce.as_bytes())),
        (b"info".to_vec(), sample_info()),
    ]);
    let t = torrent_info_from_value(&root).expect("utf8 announce should extract");
    assert_eq!(t.announce, announce);
}

#[test]
fn schema_error_not_a_dictionary() {
    assert_eq!(
        torrent_info_from_value(&Value::Integer(3)),
        Err(SchemaError::NotADictionary)
    );
}

#[test]
fn schema_error_missing_announce() {
    let root = Value::Dictionary(vec![(b"info".to_vec(), sample_info())]);
    assert_eq!(
        torrent_info_from_value(&root),
        Err(SchemaError::MissingAnnounce)
    );
}

#[test]
fn schema_error_announce_not_text() {
    let root = Value::Dictionary(vec![
        (b"announce".to_vec(), Value::Integer(1)),
        (b"info".to_vec(), sample_info()),
    ]);
    assert_eq!(
        torrent_info_from_value(&root),
        Err(SchemaError::AnnounceNotText)
    );
    let root = Value::Dictionary(vec![
        (b"announce".to_vec(), bs(&[0xff, 0xfe])),
        (b"info".to_vec(), sample_info()),
    ]);
    assert_eq!(
        torrent_info_from_value(&root),
        Err(SchemaError::AnnounceNotText)
    );
}

#[test]
fn schema_error_missing_info() {
    let root = Value::Dictionary(vec![(b"announce".to_vec(), bs(b"http://t/"))]);
    assert_eq!(torrent_info_from_value(&root), Err(SchemaError::MissingInfo));
}

#[test]
fn schema_error_info_not_dictionary() {
    let root = Value::Dictionary(vec![
        (b"announce".to_vec(), bs(b"http://t/")),
        (b"info".to_vec(), bs(b"nope")),
    ]);
    assert_eq!(
        torrent_info_from_value(&root),
        Err(SchemaError::InfoNotDictionary)
    );
}

fn torrent_with_info(entries: Vec<(Vec<u8>, Value)>) -> Value {
    Value::Dictionary(vec![
        (b"announce".to_vec(), bs(b"http://t/")),
        (b"info".to_vec(), Value::Dictionary(entries)),
    ])
}

#[test]
fn schema_error_length_variants() {
    let root = torrent_with_info(vec![]);
    assert_eq!(
        torrent_info_from_value(&root),
        Err(SchemaError::MissingLength)
    );
    let root = torrent_with_info(vec![(b"length".to_vec(), bs(b"12"))]);
    assert_eq!(
        torrent_info_from_value(&root),
        Err(SchemaError::LengthNotInteger)
    );
    let root = torrent_with_info(vec![(b"length".to_vec(), Value::Integer(-1))]);
    assert_eq!(
        torrent_info_from_value(&root),
        Err(SchemaError::NegativeLength)
    );
}

#[test]
fn schema_error_name_variants() {
    let root = torrent_with_info(vec![(b"length".to_vec(), Value::Integer(1))]);
    assert_eq!(torrent_info_from_value(&root), Err(SchemaError::MissingName));
    let root = torrent_with_info(vec![
        (b"length".to_vec(), Value::Integer(1)),
        (b"name".to_vec(), Value::Integer(2)),
    ]);
    assert_eq!(torrent_info_from_value(&root), Err(SchemaError::NameNotBytes));
}

fn length_and_name() -> Vec<(Vec<u8>, Value)> {
    vec![
        (b"length".to_vec(), Value::Integer(1)),
        (b"name".to_vec(), bs(b"f")),
    ]
}

#[test]
fn schema_error_piece_length_variants() {
    let root = torrent_with_info(length_and_name());
    assert_eq!(
        torrent_info_from_value(&root),
        Err(SchemaError::MissingPieceLength)
    );
    let mut entries = length_and_name();
    entries.push((b"piece length".to_vec(), bs(b"x")));
    assert_eq!(
        torrent_info_from_value(&torrent_with_info(entries)),
        Err(SchemaError::PieceLengthNotInteger)
    );
    let mut entries = length_and_name();
    entries.push((b"piece length".to_vec(), Value::Integer(0)));
    assert_eq!(
        torrent_info_from_value(&torrent_with_info(entries)),
        Err(SchemaError::PieceLengthNotPositive)
    );
}

fn up_to_piece_length() -> Vec<(Vec<u8>, Value)> {
    let mut entries = length_and_name();
    entries.push((b"piece length".to_vec(), Value::Integer(16)));
    entries
}

#[test]
fn schema_error_pieces_variants() {
    let root = torrent_with_info(up_to_piece_length());
    assert_eq!(
        torrent_info_from_value(&root),
        Err(SchemaError::MissingPieces)
    );
    let mut entries = up_to_piece_length();
    entries.push((b"pieces".to_vec(), Value::Integer(1)));
    assert_eq!(
        torrent_info_from_value(&torrent_with_info(entries)),
        Err(SchemaError::PiecesNotBytes)
    );
    let mut entries = up_to_piece_length();
    entries.push((b"pieces".to_vec(), bs(&[0u8; 21])));
    assert_eq!(
        torrent_info_from_value(&torrent_with_info(entries)),
        Err(SchemaError::TruncatedPieceHashes)
    );
}

#[test]
fn from_bytes_full_round() {
    let bytes = encode_value(&sample_torrent());
    let t = torrent_info_from_bytes(&bytes).expect("encoded sample should extract");
    assert_eq!(t.announce, "http://tracker.example.com/announce");
    assert_eq!(t.length, 92063);
    let info_bytes = encode_value(&sample_info());
    assert_eq!(t.info_hash, Sha1::digest(&info_bytes).to_vec());
}

#[test]
fn info_hash_covers_the_original_info_byte_range_even_unsorted() {
    // A file whose info dictionary is not canonically sorted: the
    // decoder keeps the stored order, so the hash is computed over
    // exactly the info byte range of the file as it was written.
    let info_bytes: &[u8] =
        b"d4:name1:f6:lengthi1e6:pieces0:12:piece lengthi16ee";
    let mut file = b"d8:announce9:http://t/4:info".to_vec();
    file.extend_from_slice(info_bytes);
    file.push(b'e');
    let t = torrent_info_from_bytes(&file).expect("unsorted file should extract");
    assert_eq!(t.info_hash, Sha1::digest(info_bytes).to_vec());
}

#[test]
fn from_bytes_reports_parse_errors() {
    let result = torrent_info_from_bytes(&b"not bencode".to_vec());
    assert!(matches!(result, Err(TorrentFileError::Parse(_))));
    let result = torrent_info_from_bytes(&b"i3e".to_vec());
    assert_eq!(
        result,
        Err(TorrentFileError::Schema(SchemaError::NotADictionary))
    );
}
