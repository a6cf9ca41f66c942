//! Tracker announce handling: the announce URL with its query string,
//! percent-encoding of raw hash bytes, and decoding of the compact
//! peer list a tracker returns.

use vstd::prelude::*;

use crate::bencode::{lookup, parse_top, ParseError, Value};
use crate::text::{dec_chars, hex_digit_char, push_decimal_chars, push_decimal_signed, signed_dec_chars, string_push};
use vstd::string::StringExecFns;

verus! {

/// An announce request: what the query string of a tracker GET is
/// built from. The `info_hash` and `peer_id` fields hold text that is
/// already URL-safe (for the info hash, the percent-encoding of the
/// raw digest bytes).
pub struct TrackerRequest {
    pub info_hash: String,
    pub peer_id: String,
    pub port: i32,
    pub uploaded: u32,
    pub downloaded: u32,
    pub left: u32,
    pub compact: u8,
}

/// The query string of an announce request: its fields as ordered
/// `key=value` pairs.
pub open spec fn spec_query_string(r: TrackerRequest) -> Seq<char> {
    "info_hash="@ + r.info_hash@ + "&peer_id="@ + r.peer_id@ + "&port="@ + signed_dec_chars(
        r.port as int,
    ) + "&uploaded="@ + dec_chars(r.uploaded as nat) + "&downloaded="@ + dec_chars(
        r.downloaded as nat,
    ) + "&left="@ + dec_chars(r.left as nat) + "&compact="@ + dec_chars(r.compact as nat)
}

impl TrackerRequest {
    /// The announce request for a torrent at the start of a download:
    /// the raw info-hash bytes percent-encoded, the chosen peer id and
    /// listening port, nothing transferred yet, the whole length still
    /// left (saturated to the counter's width), compact responses
    /// requested.
    pub fn for_torrent(info: &crate::torrent::TorrentInfo, peer_id: String, port: i32) -> (r:
        TrackerRequest)
        ensures
            r.info_hash@ == percent_encoding(info.info_hash@),
            r.peer_id@ == peer_id@,
            r.port == port,
            r.uploaded == 0,
            r.downloaded == 0,
            r.left == if info.length <= u32::MAX as u64 {
                info.length as u32
            } else {
                u32::MAX
            },
            r.compact == 1,
    {
        let left: u32 = if info.length <= u32::MAX as u64 {
            info.length as u32
        } else {
            u32::MAX
        };
        TrackerRequest {
            info_hash: percent_encode(&info.info_hash),
            peer_id,
            port,
            uploaded: 0,
            downloaded: 0,
            left,
            compact: 1,
        }
    }

    /// Renders the request as the query string of the announce URL.
    pub fn to_query_string(&self) -> (r: String)
        ensures
            r@ == spec_query_string(*self),
    {
        let mut s = String::new();
        s.append("info_hash=");
        s.append(self.info_hash.as_str());
        s.append("&peer_id=");
        s.append(self.peer_id.as_str());
        s.append("&port=");
        push_decimal_signed(self.port as i64, &mut s);
        s.append("&uploaded=");
        push_decimal_chars(self.uploaded as u64, &mut s);
        s.append("&downloaded=");
        push_decimal_chars(self.downloaded as u64, &mut s);
        s.append("&left=");
        push_decimal_chars(self.left as u64, &mut s);
        s.append("&compact=");
        push_decimal_chars(self.compact as u64, &mut s);
        s
    }
}

/// True of the bytes that percent-encoding passes through unchanged:
/// ASCII letters, digits, `-`, `_`, `.`, `~`.
pub open spec fn is_unreserved(b: u8) -> bool {
    (0x41 <= b <= 0x5a) || (0x61 <= b <= 0x7a) || (0x30 <= b <= 0x39) || b == 0x2d || b == 0x5f
        || b == 0x2e || b == 0x7e
}

/// The percent-encoding of one byte: itself when unreserved, else
/// `%` and two lowercase hex digits.
pub open spec fn percent_byte_chars(b: u8) -> Seq<char> {
    if is_unreserved(b) {
        seq![b as char]
    } else {
        seq!['%', hex_digit_char((b / 16) as nat), hex_digit_char((b % 16) as nat)]
    }
}

/// The percent-encoding of a byte sequence, byte by byte.
pub open spec fn percent_encoding(s: Seq<u8>) -> Seq<char>
    decreases s.len(),
{
    if s.len() == 0 {
        Seq::empty()
    } else {
        percent_encoding(s.drop_last()) + percent_byte_chars(s.last())
    }
}

/// Percent-encodes raw bytes for use inside a URL: every byte outside
/// the unreserved set becomes `%` and two lowercase hex digits. This
/// operates on the bytes themselves (for an info hash, the 20 raw
/// digest bytes), never on a hexadecimal rendering of them.
#[verifier::loop_isolation(false)]
pub fn percent_encode(bytes: &Vec<u8>) -> (r: String)
    ensures
        r@ == percent_encoding(bytes@),
{
    let mut s = String::new();
    let mut i: usize = 0;
    while i < bytes.len()
        invariant
            i <= bytes@.len(),
            s@ == percent_encoding(bytes@.take(i as int)),
        decreases bytes@.len() - i,
    {
        let b = bytes[i];
        if (0x41 <= b && b <= 0x5a) || (0x61 <= b && b <= 0x7a) || (0x30 <= b && b <= 0x39) || b
            == 0x2d || b == 0x5f || b == 0x2e || b == 0x7e {
            string_push(&mut s, b as char);
        } else {
            string_push(&mut s, '%');
            let hi = b / 16;
            let lo = b % 16;
            let hc: u8 = if hi < 10 {
                0x30 + hi
            } else {
                0x61 + (hi - 10)
            };
            let lc: u8 = if lo < 10 {
                0x30 + lo
            } else {
                0x61 + (lo - 10)
            };
            string_push(&mut s, hc as char);
            string_push(&mut s, lc as char);
        }
        proof {
            assert(bytes@.take(i as int + 1).drop_last() =~= bytes@.take(i as int));
            assert(bytes@.take(i as int + 1).last() == bytes@[i as int]);
            assert(s@ =~= percent_encoding(bytes@.take(i as int + 1)));
        }
        i = i + 1;
    }
    proof {
        assert(bytes@.take(bytes@.len() as int) =~= bytes@);
    }
    s
}

/// Joins an announce URL and a request into the full GET URL.
pub fn build_announce_url(announce: &String, req: &TrackerRequest) -> (r: String)
    ensures
        r@ == announce@ + seq!['?'] + spec_query_string(*req),
{
    let mut s = announce.clone();
    string_push(&mut s, '?');
    let q = req.to_query_string();
    s.append(q.as_str());
    s
}

/// One peer of a compact tracker response: four IPv4 octets and a
/// port, both in network order in the wire form.
#[derive(Clone, Copy, Debug, PartialEq, Eq, Structural)]
pub struct PeerAddr {
    pub oct0: u8,
    pub oct1: u8,
    pub oct2: u8,
    pub oct3: u8,
    pub port: u16,
}

/// The peer encoded in the `i`-th 6-byte group of a compact peer list:
/// four address octets, then a big-endian port.
pub open spec fn peer_at(s: Seq<u8>, i: int) -> PeerAddr
    recommends
        0 <= i,
        6 * i + 6 <= s.len(),
{
    PeerAddr {
        oct0: s[6 * i],
        oct1: s[6 * i + 1],
        oct2: s[6 * i + 2],
        oct3: s[6 * i + 3],
        port: ((s[6 * i + 4] as int) * 256 + (s[6 * i + 5] as int)) as u16,
    }
}

/// The ways a tracker's answer can be unusable even though the HTTP
/// exchange succeeded.
#[derive(Clone, Copy, Debug, PartialEq, Eq, Structural)]
pub enum TrackerError {
    /// The response body is not well-formed bencode.
    Parse(ParseError),
    /// The response body is not a dictionary.
    NotADictionary,
    /// The response has no `peers` entry.
    MissingPeers,
    /// The `peers` entry is not a byte string.
    PeersNotBytes,
    /// The compact peer list is not a whole number of 6-byte groups.
    MalformedPeerList,
}

/// Decodes a compact peer list: consecutive 6-byte groups, each four
/// address octets and a big-endian port. Succeeds exactly on lengths
/// divisible by 6.
#[verifier::loop_isolation(false)]
pub fn parse_compact_peers(bytes: &Vec<u8>) -> (r: Result<Vec<PeerAddr>, TrackerError>)
    ensures
        bytes@.len() % 6 == 0 ==> r is Ok,
        bytes@.len() % 6 != 0 ==> r == Err::<Vec<PeerAddr>, TrackerError>(
            TrackerError::MalformedPeerList,
        ),
        r is Ok ==> r->Ok_0@.len() == bytes@.len() / 6,
        r is Ok ==> forall|i: int|
            0 <= i < r->Ok_0@.len() ==> r->Ok_0@[i] == peer_at(bytes@, i),
{
    if bytes.len() % 6 != 0 {
        return Err(TrackerError::MalformedPeerList);
    }
    let mut out: Vec<PeerAddr> = Vec::new();
    let mut i: usize = 0;
    while i < bytes.len()
        invariant
            i <= bytes@.len(),
            i == 6 * out@.len(),
            forall|j: int| 0 <= j < out@.len() ==> out@[j] == peer_at(bytes@, j),
        decreases bytes@.len() - i,
    {
        proof {
            let q = out@.len() as int;
            let m = bytes@.len() as int / 6;
            assert(bytes@.len() as int == 6 * m);
            assert(q < m);
            assert(i + 6 <= bytes@.len());
        }
        let port: u16 = (bytes[i + 4] as u16) * 256 + (bytes[i + 5] as u16);
        let p = PeerAddr {
            oct0: bytes[i],
            oct1: bytes[i + 1],
            oct2: bytes[i + 2],
            oct3: bytes[i + 3],
            port,
        };
        out.push(p);
        i = i + 6;
    }
    Ok(out)
}

/// The key `peers`.
pub open spec fn key_peers() -> Seq<u8> {
    seq![0x70u8, 0x65, 0x65, 0x72, 0x73]
}

fn key_peers_vec() -> (r: Vec<u8>)
    ensures
        r@ == key_peers(),
{
    let mut v: Vec<u8> = Vec::new();
    v.push(0x70);
    v.push(0x65);
    v.push(0x65);
    v.push(0x72);
    v.push(0x73);
    proof {
        assert(v@ =~= key_peers());
    }
    v
}

/// What a tracker response body yields: the peers of its compact
/// `peers` byte string, or the first fault of the body.
pub open spec fn spec_peers_response(body: Seq<u8>) -> Result<Seq<PeerAddr>, TrackerError> {
    match parse_top(body) {
        Err(e) => Err(TrackerError::Parse(e)),
        Ok(root) => {
            if !(root is Dict) {
                Err(TrackerError::NotADictionary)
            } else {
                match lookup(root, key_peers()) {
                    Option::None => Err(TrackerError::MissingPeers),
                    Option::Some(pv) => {
                        if !(pv is Bytes) {
                            Err(TrackerError::PeersNotBytes)
                        } else if pv->Bytes_0.len() % 6 != 0 {
                            Err(TrackerError::MalformedPeerList)
                        } else {
                            Ok(Seq::new(pv->Bytes_0.len() / 6, |i: int| peer_at(pv->Bytes_0, i)))
                        }
                    },
                }
            }
        },
    }
}

/// Decodes a tracker's bencoded response body into its peer list.
pub fn peers_from_tracker_response(body: &Vec<u8>) -> (r: Result<Vec<PeerAddr>, TrackerError>)
    ensures
        match r {
            Ok(ps) => spec_peers_response(body@) == Ok::<Seq<PeerAddr>, TrackerError>(ps@),
            Err(e) => spec_peers_response(body@) == Err::<Seq<PeerAddr>, TrackerError>(e),
        },
{
    let root = match crate::bencode::decode_bencoded_structure(body) {
        Ok(v) => v,
        Err(e) => {
            return Err(TrackerError::Parse(e));
        },
    };
    match root {
        Value::Dictionary(_) => {},
        _ => {
            return Err(TrackerError::NotADictionary);
        },
    }
    let peers_key = key_peers_vec();
    let pv = match root.dict_get(&peers_key) {
        Some(x) => x,
        None => {
            return Err(TrackerError::MissingPeers);
        },
    };
    let pb = match pv {
        Value::ByteString(b) => b,
        _ => {
            return Err(TrackerError::PeersNotBytes);
        },
    };
    match parse_compact_peers(pb) {
        Ok(ps) => {
            proof {
                assert(ps@ =~= Seq::new(pb@.len() / 6, |i: int| peer_at(pb@, i)));
            }
            Ok(ps)
        },
        Err(e) => Err(e),
    }
}

} // verus!
