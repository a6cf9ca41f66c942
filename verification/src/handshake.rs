//! The fixed 68-byte peer handshake message: building the message to
//! send, and validating a peer's reply against the expected info hash.

use vstd::prelude::*;

use crate::bencode::{bytes_equal, subvec};

verus! {

/// The 19 bytes of the literal protocol identifier, `BitTorrent protocol`.
pub open spec fn protocol_name_bytes() -> Seq<u8> {
    seq![
        0x42u8, 0x69, 0x74, 0x54, 0x6f, 0x72, 0x72, 0x65, 0x6e, 0x74, 0x20, 0x70, 0x72, 0x6f,
        0x74, 0x6f, 0x63, 0x6f, 0x6c,
    ]
}

fn protocol_name_vec() -> (r: Vec<u8>)
    ensures
        r@ == protocol_name_bytes(),
{
    let mut v: Vec<u8> = Vec::new();
    v.push(0x42);
    v.push(0x69);
    v.push(0x74);
    v.push(0x54);
    v.push(0x6f);
    v.push(0x72);
    v.push(0x72);
    v.push(0x65);
    v.push(0x6e);
    v.push(0x74);
    v.push(0x20);
    v.push(0x70);
    v.push(0x72);
    v.push(0x6f);
    v.push(0x74);
    v.push(0x6f);
    v.push(0x63);
    v.push(0x6f);
    v.push(0x6c);
    proof {
        assert(v@ =~= protocol_name_bytes());
    }
    v
}

/// The 68-byte handshake wire form: the length byte 19, the protocol
/// identifier, 8 reserved zero bytes, the info hash, the peer id.
pub open spec fn handshake_bytes(info_hash: Seq<u8>, peer_id: Seq<u8>) -> Seq<u8>
    recommends
        info_hash.len() == 20,
        peer_id.len() == 20,
{
    seq![19u8] + protocol_name_bytes() + seq![0u8, 0, 0, 0, 0, 0, 0, 0] + info_hash + peer_id
}

/// Appends all of `src`.
fn push_all(src: &Vec<u8>, out: &mut Vec<u8>)
    ensures
        final(out)@ == old(out)@ + src@,
{
    let ghost base = out@;
    let mut i: usize = 0;
    while i < src.len()
        invariant
            i <= src@.len(),
            out@ == base + src@.take(i as int),
        decreases src@.len() - i,
    {
        out.push(src[i]);
        proof {
            assert(base + src@.take(i as int) + seq![src@[i as int]] =~= base + src@.take(
                i as int + 1,
            ));
        }
        i = i + 1;
    }
    proof {
        assert(src@.take(src@.len() as int) =~= src@);
    }
}

/// Builds the 68-byte handshake message for the given info hash and
/// self-chosen peer id: byte 0 is 19, bytes 1 to 19 the protocol
/// identifier, bytes 20 to 27 zero, bytes 28 to 47 the info hash,
/// bytes 48 to 67 the peer id.
pub fn build_handshake(info_hash: &Vec<u8>, peer_id: &Vec<u8>) -> (r: Vec<u8>)
    requires
        info_hash@.len() == 20,
        peer_id@.len() == 20,
    ensures
        r@ == handshake_bytes(info_hash@, peer_id@),
        r@.len() == 68,
        r@[0] == 19,
{
    let mut out: Vec<u8> = Vec::new();
    out.push(19);
    let proto = protocol_name_vec();
    push_all(&proto, &mut out);
    let mut i: usize = 0;
    while i < 8
        invariant
            i <= 8,
            out@ == seq![19u8] + protocol_name_bytes() + seq![0u8, 0, 0, 0, 0, 0, 0, 0].take(
                i as int,
            ),
        decreases 8 - i,
    {
        out.push(0);
        proof {
            assert(seq![0u8, 0, 0, 0, 0, 0, 0, 0].take(i as int).push(0u8) =~= seq![
                0u8, 0, 0, 0, 0, 0, 0, 0,
            ].take(i as int + 1));
            assert(out@ =~= seq![19u8] + protocol_name_bytes() + seq![
                0u8, 0, 0, 0, 0, 0, 0, 0,
            ].take(i as int + 1));
        }
        i = i + 1;
    }
    proof {
        assert(seq![0u8, 0, 0, 0, 0, 0, 0, 0].take(8) =~= seq![0u8, 0, 0, 0, 0, 0, 0, 0]);
    }
    push_all(info_hash, &mut out);
    push_all(peer_id, &mut out);
    proof {
        assert(out@ =~= handshake_bytes(info_hash@, peer_id@));
    }
    out
}

/// The ways a handshake reply can be rejected.
#[derive(Clone, Copy, Debug, PartialEq, Eq, Structural)]
pub enum HandshakeError {
    /// The reply is not 68 bytes of the handshake shape (length byte
    /// 19, then the protocol identifier).
    MalformedReply,
    /// The reply's embedded info hash differs from the one sent.
    ProtocolMismatch,
}

/// The handshake shape of a reply: exactly 68 bytes, the length byte,
/// the protocol identifier.
pub open spec fn reply_well_formed(reply: Seq<u8>) -> bool {
    reply.len() == 68 && reply[0] == 19 && reply.subrange(1, 20) == protocol_name_bytes()
}

/// What validating a reply against the expected info hash yields: the
/// remote peer id exactly when the reply has the handshake shape and
/// carries that hash.
pub open spec fn spec_handshake_reply(reply: Seq<u8>, expected: Seq<u8>) -> Result<
    Seq<u8>,
    HandshakeError,
> {
    if !reply_well_formed(reply) {
        Err(HandshakeError::MalformedReply)
    } else if reply.subrange(28, 48) != expected {
        Err(HandshakeError::ProtocolMismatch)
    } else {
        Ok(reply.subrange(48, 68))
    }
}

/// Validates a peer's handshake reply and extracts the remote peer id
/// (the trailing 20 bytes). Rejects a reply whose embedded info hash
/// is not the one sent.
pub fn parse_handshake_reply(reply: &Vec<u8>, expected_info_hash: &Vec<u8>) -> (r: Result<
    Vec<u8>,
    HandshakeError,
>)
    requires
        expected_info_hash@.len() == 20,
    ensures
        match r {
            Ok(pid) => spec_handshake_reply(reply@, expected_info_hash@) == Ok::<
                Seq<u8>,
                HandshakeError,
            >(pid@) && pid@.len() == 20,
            Err(e) => spec_handshake_reply(reply@, expected_info_hash@) == Err::<
                Seq<u8>,
                HandshakeError,
            >(e),
        },
{
    if reply.len() != 68 {
        return Err(HandshakeError::MalformedReply);
    }
    if reply[0] != 19 {
        return Err(HandshakeError::MalformedReply);
    }
    let proto = protocol_name_vec();
    let reply_proto = subvec(reply, 1, 20);
    if !bytes_equal(&reply_proto, &proto) {
        return Err(HandshakeError::MalformedReply);
    }
    let reply_hash = subvec(reply, 28, 48);
    if !bytes_equal(&reply_hash, expected_info_hash) {
        return Err(HandshakeError::ProtocolMismatch);
    }
    let pid = subvec(reply, 48, 68);
    Ok(pid)
}

/// Validating a reply that itself has the handshake wire form yields
/// the peer id it carries exactly when its info hash is the expected
/// one, and a protocol mismatch on any divergence in the hash.
pub proof fn lemma_handshake_reply_of_built(h: Seq<u8>, p: Seq<u8>, expected: Seq<u8>)
    requires
        h.len() == 20,
        p.len() == 20,
        expected.len() == 20,
    ensures
        h == expected ==> spec_handshake_reply(handshake_bytes(h, p), expected) == Ok::<
            Seq<u8>,
            HandshakeError,
        >(p),
        h != expected ==> spec_handshake_reply(handshake_bytes(h, p), expected) == Err::<
            Seq<u8>,
            HandshakeError,
        >(HandshakeError::ProtocolMismatch),
{
    let b = handshake_bytes(h, p);
    assert(b.subrange(1, 20) =~= protocol_name_bytes());
    assert(b.subrange(28, 48) =~= h);
    assert(b.subrange(48, 68) =~= p);
}

} // verus!
