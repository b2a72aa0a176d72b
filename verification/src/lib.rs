//! Protocol core of a BitTorrent client: the bencode codec, the metainfo
//! model with its info hash, the tracker announce exchange and the peer wire
//! handshake. Every function takes and returns plain values; reading files
//! and talking to the network is left to the caller.
//!
//! The codec:
//! - [`value`]: bencode values;
//! - [`grammar`]: what bytes decode to and what values are written as;
//! - [`codec`]: the decoder and the encoder;
//! - [`roundtrip`] and [`canonical`]: decoding inverts encoding, and the
//!   encoding does not depend on the order in which a dictionary was built;
//! - [`decimal`] and [`order`]: decimal text, and the order of keys.
//!
//! The metainfo file:
//! - [`schema`]: typed fields out of a dictionary;
//! - [`parser`]: the torrent, its info hash and its piece hashes;
//! - [`metainfo`]: reading does not depend on the order of keys, and
//!   inverts writing.
//!
//! The network:
//! - [`tracker`]: the announce URL and the tracker's answer;
//! - [`peer_connection`]: the handshake, the frames behind it, and the
//!   flags of a connection.
//!
//! And what these rest on: [`digest`] for SHA-1 and hexadecimal,
//! [`urlencode`] for percent-encoding, [`text`] for UTF-8.

pub mod canonical;
pub mod codec;
pub mod decimal;
pub mod digest;
pub mod grammar;
pub mod metainfo;
pub mod order;
pub mod parser;
pub mod peer_connection;
pub mod roundtrip;
pub mod schema;
pub mod text;
pub mod tracker;
pub mod urlencode;
pub mod value;
