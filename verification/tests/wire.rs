use bittorrent_core::handshake::{build_handshake, parse_handshake_reply, HandshakeError};

fn sample_hash() -> Vec<u8> {
    (0..20u8).collect()
}

fn sample_peer_id() -> Vec<u8> {
    b"00112233445566778899".to_vec()
}

fn remote_peer_id() -> Vec<u8> {
    b"99887766554433221100".to_vec()
}

#[test]
fn handshake_is_68_bytes_with_length_prefix_19() {
    let msg = build_handshake(&sample_hash(), &sample_peer_id());
    assert_eq!(msg.len(), 68);
    assert_eq!(msg[0], 19);
}

#[test]
fn handshake_layout() {
    let msg = build_handshake(&sample_hash(), &sample_peer_id());
    assert_eq!(&msg[1..20], b"BitTorrent protocol");
    assert_eq!(&msg[20..28], &[0u8; 8]);
    assert_eq!(&msg[28..48], sample_hash().as_slice());
    assert_eq!(&msg[48..68], sample_peer_id().as_slice());
}

#[test]
fn reply_round_trip_yields_remote_peer_id() {
    let reply = build_handshake(&sample_hash(), &remote_peer_id());
    let pid = parse_handshake_reply(&reply, &sample_hash()).expect("matching reply is accepted");
    assert_eq!(pid, remote_peer_id());
}

#[test]
fn corrupting_any_info_hash_byte_is_a_protocol_mismatch() {
    for i in 28..48 {
        let mut reply = build_handshake(&sample_hash(), &remote_peer_id());
        reply[i] = reply[i].wrapping_add(1);
        assert_eq!(
            parse_handshake_reply(&reply, &sample_hash()),
            Err(HandshakeError::ProtocolMismatch)
        );
    }
}

#[test]
fn wrong_length_replies_are_malformed() {
    let mut reply = build_handshake(&sample_hash(), &remote_peer_id());
    reply.pop();
    assert_eq!(
        parse_handshake_reply(&reply, &sample_hash()),
        Err(HandshakeError::MalformedReply)
    );
    let mut reply = build_handshake(&sample_hash(), &remote_peer_id());
    reply.push(0);
    assert_eq!(
        parse_handshake_reply(&reply, &sample_hash()),
        Err(HandshakeError::MalformedReply)
    );
}

#[test]
fn wrong_prefix_or_protocol_is_malformed() {
    let mut reply = build_handshake(&sample_hash(), &remote_peer_id());
    reply[0] = 18;
    assert_eq!(
        parse_handshake_reply(&reply, &sample_hash()),
        Err(HandshakeError::MalformedReply)
    );
    let mut reply = build_handshake(&sample_hash(), &remote_peer_id());
    reply[5] = b'X';
    assert_eq!(
        parse_handshake_reply(&reply, &sample_hash()),
        Err(HandshakeError::MalformedReply)
    );
}

#[test]
fn corrupting_peer_id_bytes_still_validates() {
    // The trailing 20 bytes are the remote's identity, not checked
    // against anything: they come back as-is.
    let mut reply = build_handshake(&sample_hash(), &remote_peer_id());
    reply[48] = b'z';
    let pid = parse_handshake_reply(&reply, &sample_hash()).expect("hash still matches");
    assert_eq!(pid[0], b'z');
    assert_eq!(&pid[1..], &remote_peer_id()[1..]);
}
