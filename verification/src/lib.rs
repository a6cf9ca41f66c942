//! Core of a BitTorrent client: a bencode codec, torrent metainfo
//! extraction with info-hash computation, tracker announce handling,
//! and the fixed 68-byte peer handshake message.
//!
//! The codec is the foundation. Its decoder accepts exactly the
//! well-formed bencode terms and keeps dictionary entries in the order
//! the input carries them, so that re-encoding a decoded value
//! reproduces the original bytes exactly — the property the info hash
//! depends on (`roundtrip` proves both directions). Canonical form —
//! dictionary keys in strictly ascending byte-wise order — is demanded
//! of values the library builds itself: `bencode::dict_insert` grows
//! dictionaries in sorted order, and `bencode::sorted_keys` is the
//! predicate the canonical form is stated with.

pub mod bencode;
pub mod digits;
pub mod handshake;
pub mod render;
pub mod roundtrip;
pub mod text;
pub mod torrent;
pub mod tracker;
