use bittorrent_core::bencode::{encode_value, Value};
use bittorrent_core::tracker::{
    build_announce_url, parse_compact_peers, peers_from_tracker_response, percent_encode,
    PeerAddr, TrackerError, TrackerRequest,
};

fn sample_request() -> TrackerRequest {
    TrackerRequest {
        info_hash: "%ab%cd".to_string(),
        peer_id: "00112233445566778899".to_string(),
        port: 6881,
        uploaded: 0,
        downloaded: 0,
        left: 92063,
        compact: 1,
    }
}

#[test]
fn query_string_exact() {
    assert_eq!(
        sample_request().to_query_string(),
        "info_hash=%ab%cd&peer_id=00112233445566778899&port=6881&uploaded=0&downloaded=0&left=92063&compact=1"
    );
}

#[test]
fn query_string_negative_port() {
    let mut req = sample_request();
    req.port = -5;
    assert!(req.to_query_string().contains("&port=-5&"));
}

#[test]
fn announce_url_joins_with_question_mark() {
    let req = sample_request();
    let url = build_announce_url(&"http://tracker.example.com/announce".to_string(), &req);
    assert_eq!(
        url,
        format!(
            "http://tracker.example.com/announce?{}",
            req.to_query_string()
        )
    );
}

#[test]
fn request_for_torrent_percent_encodes_the_raw_hash() {
    let info = bittorrent_core::torrent::TorrentInfo {
        announce: "http://t/".to_string(),
        info_hash: vec![0xab; 20],
        length: 92063,
        piece_length: 32768,
        piece_hashes: vec![],
    };
    let req = TrackerRequest::for_torrent(&info, "00112233445566778899".to_string(), 6881);
    assert_eq!(req.info_hash, "%ab".repeat(20));
    assert_eq!(req.peer_id, "00112233445566778899");
    assert_eq!(req.port, 6881);
    assert_eq!(req.uploaded, 0);
    assert_eq!(req.downloaded, 0);
    assert_eq!(req.left, 92063);
    assert_eq!(req.compact, 1);
}

#[test]
fn request_for_torrent_saturates_left_counter() {
    let info = bittorrent_core::torrent::TorrentInfo {
        announce: "http://t/".to_string(),
        info_hash: vec![0; 20],
        length: u64::MAX,
        piece_length: 32768,
        piece_hashes: vec![],
    };
    let req = TrackerRequest::for_torrent(&info, "00112233445566778899".to_string(), 6881);
    assert_eq!(req.left, u32::MAX);
}

#[test]
fn percent_encode_passes_unreserved_bytes() {
    let bytes = b"AZaz09-_.~".to_vec();
    assert_eq!(percent_encode(&bytes), "AZaz09-_.~");
}

#[test]
fn percent_encode_escapes_other_bytes() {
    assert_eq!(
        percent_encode(&vec![0x00, 0x12, 0xab, 0xff, b' ', b'%']),
        "%00%12%ab%ff%20%25"
    );
}

#[test]
fn percent_encode_works_on_raw_digest_bytes() {
    // A realistic info hash: raw bytes, not their hex rendering.
    let hash = vec![
        0xd6, 0x9f, 0x91, 0xe6, 0xb2, 0xae, 0x4c, 0x54, 0x24, 0x68, 0xd1, 0x07, 0x3a, 0x71,
        0xd4, 0xea, 0x13, 0x87, 0x9a, 0x7f,
    ];
    assert_eq!(
        percent_encode(&hash),
        "%d6%9f%91%e6%b2%aeLT%24h%d1%07%3aq%d4%ea%13%87%9a%7f"
    );
}

#[test]
fn compact_peers_two_entries() {
    let bytes = vec![10, 0, 0, 1, 0x1a, 0xe1, 192, 168, 1, 2, 0x00, 80];
    let peers = parse_compact_peers(&bytes).expect("12 bytes are two peers");
    assert_eq!(peers.len(), 2);
    assert_eq!(
        peers[0],
        PeerAddr { oct0: 10, oct1: 0, oct2: 0, oct3: 1, port: 6881 }
    );
    assert_eq!(
        peers[1],
        PeerAddr { oct0: 192, oct1: 168, oct2: 1, oct3: 2, port: 80 }
    );
}

#[test]
fn compact_peers_rejects_length_not_multiple_of_six() {
    let bytes = vec![1, 2, 3, 4, 5, 6, 7];
    assert_eq!(
        parse_compact_peers(&bytes),
        Err(TrackerError::MalformedPeerList)
    );
}

#[test]
fn compact_peers_empty() {
    assert_eq!(parse_compact_peers(&vec![]), Ok(vec![]));
}

#[test]
fn tracker_response_peers() {
    let body = encode_value(&Value::Dictionary(vec![
        (b"interval".to_vec(), Value::Integer(1800)),
        (
            b"peers".to_vec(),
            Value::ByteString(vec![10, 0, 0, 1, 0x1a, 0xe1]),
        ),
    ]));
    let peers = peers_from_tracker_response(&body).expect("response should decode");
    assert_eq!(
        peers,
        vec![PeerAddr { oct0: 10, oct1: 0, oct2: 0, oct3: 1, port: 6881 }]
    );
}

#[test]
fn tracker_response_errors() {
    assert!(matches!(
        peers_from_tracker_response(&b"garbage".to_vec()),
        Err(TrackerError::Parse(_))
    ));
    assert_eq!(
        peers_from_tracker_response(&b"i3e".to_vec()),
        Err(TrackerError::NotADictionary)
    );
    let body = encode_value(&Value::Dictionary(vec![(
        b"interval".to_vec(),
        Value::Integer(1800),
    )]));
    assert_eq!(
        peers_from_tracker_response(&body),
        Err(TrackerError::MissingPeers)
    );
    let body = encode_value(&Value::Dictionary(vec![(
        b"peers".to_vec(),
        Value::Integer(1),
    )]));
    assert_eq!(
        peers_from_tracker_response(&body),
        Err(TrackerError::PeersNotBytes)
    );
    let body = encode_value(&Value::Dictionary(vec![(
        b"peers".to_vec(),
        Value::ByteString(vec![1, 2, 3, 4, 5, 6, 7]),
    )]));
    assert_eq!(
        peers_from_tracker_response(&body),
        Err(TrackerError::MalformedPeerList)
    );
}
