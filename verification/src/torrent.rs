//! Torrent metainfo: interpreting a decoded bencode dictionary as
//! torrent metadata and computing the SHA-1 info hash over the
//! canonical bencoding of the `info` dictionary.

use vstd::prelude::*;

use crate::bencode::{enc, encode_value, lookup, parse_top, subvec, ParseError, SpecValue, Value};
use crate::text::hex_digit_char;
use sha1::{Digest, Sha1};
use vstd::utf8::{decode_utf8, valid_utf8};

verus! {

/// The SHA-1 digest of a byte sequence, as the `sha1` crate computes it.
pub uninterp spec fn sha1_of(data: Seq<u8>) -> Seq<u8>;

/// Relies on `sha1::Sha1` (through the one-shot `Digest::digest`): the
/// digest is a function of the input bytes alone and is 20 bytes long.
#[verifier::external_body]
fn sha1_digest(data: &Vec<u8>) -> (r: Vec<u8>)
    ensures
        r@ == sha1_of(data@),
        r@.len() == 20,
{
    Sha1::digest(data.as_slice()).to_vec()
}

/// Lowercase hexadecimal rendering: two digits per byte, most
/// significant digit first.
pub open spec fn hex_of(s: Seq<u8>) -> Seq<char>
    decreases s.len(),
{
    if s.len() == 0 {
        Seq::empty()
    } else {
        hex_of(s.drop_last()) + seq![
            hex_digit_char((s.last() / 16) as nat),
            hex_digit_char((s.last() % 16) as nat),
        ]
    }
}

/// Relies on `hex::encode`: lowercase hexadecimal, two digits per byte,
/// most significant digit first.
#[verifier::external_body]
fn hex_encode(data: &Vec<u8>) -> (r: String)
    ensures
        r@ == hex_of(data@),
{
    hex::encode(data.as_slice())
}

/// The lowercase hexadecimal rendering of a byte vector.
pub fn to_hex(data: &Vec<u8>) -> (r: String)
    ensures
        r@ == hex_of(data@),
{
    hex_encode(data)
}

/// Relies on `String::from_utf8`: succeeds exactly on valid UTF-8 and
/// decodes the bytes' scalars.
#[verifier::external_body]
fn utf8_to_string(v: &Vec<u8>) -> (r: Option<String>)
    ensures
        r is Some <==> valid_utf8(v@),
        r is Some ==> r->Some_0@ == decode_utf8(v@),
{
    String::from_utf8(v.clone()).ok()
}

/// The ways a decoded torrent file can fail to carry the metainfo
/// schema; each variant names the field at fault.
#[derive(Clone, Copy, Debug, PartialEq, Eq, Structural)]
pub enum SchemaError {
    /// The top-level value is not a dictionary.
    NotADictionary,
    /// `announce` is absent.
    MissingAnnounce,
    /// `announce` is not a byte string holding UTF-8 text.
    AnnounceNotText,
    /// `info` is absent.
    MissingInfo,
    /// `info` is not a dictionary.
    InfoNotDictionary,
    /// `info.length` is absent.
    MissingLength,
    /// `info.length` is not an integer.
    LengthNotInteger,
    /// `info.length` is negative.
    NegativeLength,
    /// `info.name` is absent.
    MissingName,
    /// `info.name` is not a byte string.
    NameNotBytes,
    /// `info.piece length` is absent.
    MissingPieceLength,
    /// `info.piece length` is not an integer.
    PieceLengthNotInteger,
    /// `info.piece length` is not positive.
    PieceLengthNotPositive,
    /// `info.pieces` is absent.
    MissingPieces,
    /// `info.pieces` is not a byte string.
    PiecesNotBytes,
    /// `info.pieces` is not a whole number of 20-byte digests.
    TruncatedPieceHashes,
}

/// The key `announce`.
pub open spec fn key_announce() -> Seq<u8> {
    seq![0x61u8, 0x6e, 0x6e, 0x6f, 0x75, 0x6e, 0x63, 0x65]
}

/// The key `info`.
pub open spec fn key_info() -> Seq<u8> {
    seq![0x69u8, 0x6e, 0x66, 0x6f]
}

/// The key `length`.
pub open spec fn key_length() -> Seq<u8> {
    seq![0x6cu8, 0x65, 0x6e, 0x67, 0x74, 0x68]
}

/// The key `name`.
pub open spec fn key_name() -> Seq<u8> {
    seq![0x6eu8, 0x61, 0x6d, 0x65]
}

/// The key `piece length`.
pub open spec fn key_piece_length() -> Seq<u8> {
    seq![0x70u8, 0x69, 0x65, 0x63, 0x65, 0x20, 0x6c, 0x65, 0x6e, 0x67, 0x74, 0x68]
}

/// The key `pieces`.
pub open spec fn key_pieces() -> Seq<u8> {
    seq![0x70u8, 0x69, 0x65, 0x63, 0x65, 0x73]
}

fn key_announce_vec() -> (r: Vec<u8>)
    ensures
        r@ == key_announce(),
{
    let mut v: Vec<u8> = Vec::new();
    v.push(0x61);
    v.push(0x6e);
    v.push(0x6e);
    v.push(0x6f);
    v.push(0x75);
    v.push(0x6e);
    v.push(0x63);
    v.push(0x65);
    proof {
        assert(v@ =~= key_announce());
    }
    v
}

fn key_info_vec() -> (r: Vec<u8>)
    ensures
        r@ == key_info(),
{
    let mut v: Vec<u8> = Vec::new();
    v.push(0x69);
    v.push(0x6e);
    v.push(0x66);
    v.push(0x6f);
    proof {
        assert(v@ =~= key_info());
    }
    v
}

fn key_length_vec() -> (r: Vec<u8>)
    ensures
        r@ == key_length(),
{
    let mut v: Vec<u8> = Vec::new();
    v.push(0x6c);
    v.push(0x65);
    v.push(0x6e);
    v.push(0x67);
    v.push(0x74);
    v.push(0x68);
    proof {
        assert(v@ =~= key_length());
    }
    v
}

fn key_name_vec() -> (r: Vec<u8>)
    ensures
        r@ == key_name(),
{
    let mut v: Vec<u8> = Vec::new();
    v.push(0x6e);
    v.push(0x61);
    v.push(0x6d);
    v.push(0x65);
    proof {
        assert(v@ =~= key_name());
    }
    v
}

fn key_piece_length_vec() -> (r: Vec<u8>)
    ensures
        r@ == key_piece_length(),
{
    let mut v: Vec<u8> = Vec::new();
    v.push(0x70);
    v.push(0x69);
    v.push(0x65);
    v.push(0x63);
    v.push(0x65);
    v.push(0x20);
    v.push(0x6c);
    v.push(0x65);
    v.push(0x6e);
    v.push(0x67);
    v.push(0x74);
    v.push(0x68);
    proof {
        assert(v@ =~= key_piece_length());
    }
    v
}

fn key_pieces_vec() -> (r: Vec<u8>)
    ensures
        r@ == key_pieces(),
{
    let mut v: Vec<u8> = Vec::new();
    v.push(0x70);
    v.push(0x69);
    v.push(0x65);
    v.push(0x63);
    v.push(0x65);
    v.push(0x73);
    proof {
        assert(v@ =~= key_pieces());
    }
    v
}

/// The metadata of a single-file torrent, as read from its metainfo
/// dictionary.
#[derive(Debug, PartialEq, Eq)]
pub struct TorrentInfo {
    /// The tracker's announce URL.
    pub announce: String,
    /// The 20-byte SHA-1 digest of the bencoded `info` dictionary.
    pub info_hash: Vec<u8>,
    /// The total number of bytes of the single file.
    pub length: u64,
    /// The number of bytes per piece.
    pub piece_length: u64,
    /// One 20-byte SHA-1 digest per piece.
    pub piece_hashes: Vec<Vec<u8>>,
}

/// The mathematical model of `TorrentInfo`.
pub ghost struct SpecTorrentInfo {
    pub announce: Seq<char>,
    pub info_hash: Seq<u8>,
    pub length: int,
    pub piece_length: int,
    pub piece_hashes: Seq<Seq<u8>>,
}

impl View for TorrentInfo {
    type V = SpecTorrentInfo;

    open spec fn view(&self) -> SpecTorrentInfo {
        SpecTorrentInfo {
            announce: self.announce@,
            info_hash: self.info_hash@,
            length: self.length as int,
            piece_length: self.piece_length as int,
            piece_hashes: Seq::new(self.piece_hashes@.len(), |i: int| self.piece_hashes@[i]@),
        }
    }
}

impl TorrentInfo {
    /// The shape every extracted metainfo has: a 20-byte info hash and
    /// 20-byte piece hashes.
    pub open spec fn wf(&self) -> bool {
        &&& self.info_hash@.len() == 20
        &&& forall|i: int|
            0 <= i < self.piece_hashes@.len() ==> (#[trigger] self.piece_hashes@[i])@.len() == 20
    }

    /// The hexadecimal rendering of the info hash.
    pub fn info_hash_hex(&self) -> (r: String)
        ensures
            r@ == hex_of(self.info_hash@),
    {
        to_hex(&self.info_hash)
    }
}

/// The `pieces` byte string split into consecutive 20-byte digests.
pub open spec fn piece_hash_seq(pb: Seq<u8>) -> Seq<Seq<u8>> {
    Seq::new(pb.len() / 20, |i: int| pb.subrange(20 * i, 20 * i + 20))
}

/// What extracting metainfo from a decoded value yields: the metadata
/// when the value satisfies the single-file metainfo schema, and the
/// first schema fault otherwise (fields checked in the order announce,
/// info, length, name, piece length, pieces).
pub open spec fn spec_extract(root: SpecValue) -> Result<SpecTorrentInfo, SchemaError> {
    if !(root is Dict) {
        Err(SchemaError::NotADictionary)
    } else {
        match lookup(root, key_announce()) {
            Option::None => Err(SchemaError::MissingAnnounce),
            Option::Some(av) => {
                if !(av is Bytes) {
                    Err(SchemaError::AnnounceNotText)
                } else if !valid_utf8(av->Bytes_0) {
                    Err(SchemaError::AnnounceNotText)
                } else {
                    match lookup(root, key_info()) {
                        Option::None => Err(SchemaError::MissingInfo),
                        Option::Some(iv) => {
                            if !(iv is Dict) {
                                Err(SchemaError::InfoNotDictionary)
                            } else {
                                spec_extract_info(av->Bytes_0, iv)
                            }
                        },
                    }
                }
            },
        }
    }
}

/// The `info`-dictionary half of `spec_extract`.
pub open spec fn spec_extract_info(announce_bytes: Seq<u8>, iv: SpecValue) -> Result<
    SpecTorrentInfo,
    SchemaError,
> {
    match lookup(iv, key_length()) {
        Option::None => Err(SchemaError::MissingLength),
        Option::Some(lv) => {
            if !(lv is Int) {
                Err(SchemaError::LengthNotInteger)
            } else if lv->Int_0 < 0 {
                Err(SchemaError::NegativeLength)
            } else {
                match lookup(iv, key_name()) {
                    Option::None => Err(SchemaError::MissingName),
                    Option::Some(nv) => {
                        if !(nv is Bytes) {
                            Err(SchemaError::NameNotBytes)
                        } else {
                            match lookup(iv, key_piece_length()) {
                                Option::None => Err(SchemaError::MissingPieceLength),
                                Option::Some(pv) => {
                                    if !(pv is Int) {
                                        Err(SchemaError::PieceLengthNotInteger)
                                    } else if pv->Int_0 <= 0 {
                                        Err(SchemaError::PieceLengthNotPositive)
                                    } else {
                                        match lookup(iv, key_pieces()) {
                                            Option::None => Err(SchemaError::MissingPieces),
                                            Option::Some(bv) => {
                                                if !(bv is Bytes) {
                                                    Err(SchemaError::PiecesNotBytes)
                                                } else if bv->Bytes_0.len() % 20 != 0 {
                                                    Err(SchemaError::TruncatedPieceHashes)
                                                } else {
                                                    Ok(
                                                        SpecTorrentInfo {
                                                            announce: decode_utf8(announce_bytes),
                                                            info_hash: sha1_of(enc(iv)),
                                                            length: lv->Int_0,
                                                            piece_length: pv->Int_0,
                                                            piece_hashes: piece_hash_seq(
                                                                bv->Bytes_0,
                                                            ),
                                                        },
                                                    )
                                                }
                                            },
                                        }
                                    }
                                },
                            }
                        }
                    },
                }
            }
        },
    }
}

/// The SHA-1 info hash of a value: the digest of its bencoding. Equal
/// values therefore always yield equal digests, however they were
/// built.
pub fn hash_info(info: &Value) -> (r: Vec<u8>)
    ensures
        r@ == sha1_of(enc(info@)),
        r@.len() == 20,
{
    let encoded = encode_value(info);
    sha1_digest(&encoded)
}

/// Info-hash determinism: the digest is computed over the value's
/// bencoding alone, so any two values with the same model, however
/// and whenever they were built, yield byte-identical encodings and
/// therefore identical SHA-1 digests.
pub proof fn lemma_info_hash_deterministic(v1: SpecValue, v2: SpecValue)
    requires
        v1 == v2,
    ensures
        enc(v1) == enc(v2),
        sha1_of(enc(v1)) == sha1_of(enc(v2)),
{
}

/// Splits the `pieces` byte string into its 20-byte digests.
#[verifier::loop_isolation(false)]
fn split_piece_hashes(pb: &Vec<u8>) -> (r: Vec<Vec<u8>>)
    requires
        pb@.len() % 20 == 0,
    ensures
        r@.len() == pb@.len() / 20,
        forall|i: int|
            0 <= i < r@.len() ==> (#[trigger] r@[i])@ == pb@.subrange(20 * i, 20 * i + 20),
{
    let mut out: Vec<Vec<u8>> = Vec::new();
    let mut i: usize = 0;
    while i < pb.len()
        invariant
            i <= pb@.len(),
            i == 20 * out@.len(),
            forall|j: int|
                0 <= j < out@.len() ==> (#[trigger] out@[j])@ == pb@.subrange(20 * j, 20 * j + 20),
        decreases pb@.len() - i,
    {
        proof {
            let q = out@.len() as int;
            let m = pb@.len() as int / 20;
            assert(pb@.len() as int == 20 * m);
            assert(q < m);
            assert(i + 20 <= pb@.len());
        }
        let h = subvec(pb, i, i + 20);
        out.push(h);
        i = i + 20;
    }
    proof {
        assert(out@.len() == pb@.len() / 20);
    }
    out
}

/// Extracts torrent metadata from a decoded value: requires the
/// single-file metainfo schema and computes the info hash over the
/// re-encoded `info` dictionary, whose bytes are exactly the `info`
/// byte range of the original file.
pub fn torrent_info_from_value(v: &Value) -> (r: Result<TorrentInfo, SchemaError>)
    ensures
        match r {
            Ok(t) => spec_extract(v@) == Ok::<SpecTorrentInfo, SchemaError>(t@) && t.wf(),
            Err(e) => spec_extract(v@) == Err::<SpecTorrentInfo, SchemaError>(e),
        },
{
    match v {
        Value::Dictionary(_) => {},
        _ => {
            return Err(SchemaError::NotADictionary);
        },
    }
    let announce_key = key_announce_vec();
    let av = match v.dict_get(&announce_key) {
        Some(x) => x,
        None => {
            return Err(SchemaError::MissingAnnounce);
        },
    };
    let ab = match av {
        Value::ByteString(b) => b,
        _ => {
            return Err(SchemaError::AnnounceNotText);
        },
    };
    let announce = match utf8_to_string(ab) {
        Some(s) => s,
        None => {
            return Err(SchemaError::AnnounceNotText);
        },
    };
    let info_key = key_info_vec();
    let iv = match v.dict_get(&info_key) {
        Some(x) => x,
        None => {
            return Err(SchemaError::MissingInfo);
        },
    };
    match iv {
        Value::Dictionary(_) => {},
        _ => {
            return Err(SchemaError::InfoNotDictionary);
        },
    }
    let length_key = key_length_vec();
    let lv = match iv.dict_get(&length_key) {
        Some(x) => x,
        None => {
            return Err(SchemaError::MissingLength);
        },
    };
    let length = match lv {
        Value::Integer(n) => *n,
        _ => {
            return Err(SchemaError::LengthNotInteger);
        },
    };
    if length < 0 {
        return Err(SchemaError::NegativeLength);
    }
    let name_key = key_name_vec();
    match iv.dict_get(&name_key) {
        Some(nv) => match nv {
            Value::ByteString(_) => {},
            _ => {
                return Err(SchemaError::NameNotBytes);
            },
        },
        None => {
            return Err(SchemaError::MissingName);
        },
    }
    let piece_length_key = key_piece_length_vec();
    let pv = match iv.dict_get(&piece_length_key) {
        Some(x) => x,
        None => {
            return Err(SchemaError::MissingPieceLength);
        },
    };
    let piece_length = match pv {
        Value::Integer(p) => *p,
        _ => {
            return Err(SchemaError::PieceLengthNotInteger);
        },
    };
    if piece_length <= 0 {
        return Err(SchemaError::PieceLengthNotPositive);
    }
    let pieces_key = key_pieces_vec();
    let bv = match iv.dict_get(&pieces_key) {
        Some(x) => x,
        None => {
            return Err(SchemaError::MissingPieces);
        },
    };
    let pb = match bv {
        Value::ByteString(b) => b,
        _ => {
            return Err(SchemaError::PiecesNotBytes);
        },
    };
    if pb.len() % 20 != 0 {
        return Err(SchemaError::TruncatedPieceHashes);
    }
    let info_hash = hash_info(iv);
    let piece_hashes = split_piece_hashes(pb);
    let t = TorrentInfo { announce, info_hash, length: length as u64, piece_length: piece_length as u64, piece_hashes };
    proof {
        assert(t@.piece_hashes =~= piece_hash_seq(pb@));
    }
    Ok(t)
}

/// The ways raw torrent-file bytes can fail to yield metadata.
#[derive(Clone, Copy, Debug, PartialEq, Eq, Structural)]
pub enum TorrentFileError {
    /// The bytes are not well-formed bencode.
    Parse(ParseError),
    /// The decoded value does not carry the metainfo schema.
    Schema(SchemaError),
}

/// Extracts torrent metadata from the raw bytes of a torrent file:
/// decodes them as bencode, then reads the metainfo schema.
pub fn torrent_info_from_bytes(bytes: &Vec<u8>) -> (r: Result<TorrentInfo, TorrentFileError>)
    ensures
        match r {
            Ok(t) => parse_top(bytes@) is Ok && spec_extract(parse_top(bytes@)->Ok_0) == Ok::<
                SpecTorrentInfo,
                SchemaError,
            >(t@) && t.wf(),
            Err(TorrentFileError::Parse(e)) => parse_top(bytes@) == Err::<SpecValue, ParseError>(
                e,
            ),
            Err(TorrentFileError::Schema(e)) => parse_top(bytes@) is Ok && spec_extract(
                parse_top(bytes@)->Ok_0,
            ) == Err::<SpecTorrentInfo, SchemaError>(e),
        },
{
    let decoded = match crate::bencode::decode_bencoded_structure(bytes) {
        Ok(v) => v,
        Err(e) => {
            return Err(TorrentFileError::Parse(e));
        },
    };
    match torrent_info_from_value(&decoded) {
        Ok(t) => Ok(t),
        Err(e) => Err(TorrentFileError::Schema(e)),
    }
}

} // verus!
