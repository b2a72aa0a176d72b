//! The tracker's side of peer discovery: the announce request as a URL,
//! and the tracker's bencoded answer with its compact list of peers.

use crate::codec::decode_top_level;
use crate::decimal::{decimal, lemma_decimal_is_canonical, push_decimal};
use crate::digest::DIGEST_LEN;
use crate::grammar::{parse_unbounded, DecodeError};
use crate::parser::{calculate_info_hash_bytes, Torrent};
use crate::schema::{
    bytes_field, find, mismatch, optional_unsigned, optional_unsigned_field, required_unsigned,
    unsigned_field, Expected, Field, SchemaError,
};
use crate::text::{ascii_string, ascii_text, is_ascii_bytes, string_bytes};
use crate::urlencode::{lemma_percent_encoded_is_ascii, percent_encode, percent_encoded};
use crate::value::{Bencode, BencodeValue};
use vstd::prelude::*;
use vstd::string::*;
use vstd::utf8::encode_utf8;

verus! {

/// Why an announce gave no list of peers.
#[derive(Debug, Clone, Copy, PartialEq, Eq, Structural)]
pub enum TrackerError {
    /// The tracker could not be reached, or the transfer broke off. The
    /// library never reports this itself: it is for the caller that
    /// makes the request.
    Network,
    /// The response is not bencode.
    Decode(DecodeError),
    /// `interval` or `peers` is missing, or a field holds another kind of
    /// value than it has to.
    Schema(SchemaError),
    /// The length of the compact list of peers is not a multiple of 6.
    InvalidPeerListLength,
}

/// The address of a peer.
#[derive(Debug, Clone, Copy, PartialEq, Eq)]
pub struct Peer {
    /// The TCP port.
    pub port: u16,
    /// The four octets of the IPv4 address, the first first.
    pub ip: [u8; 4],
}

/// What the tracker answers to an announce.
#[derive(Debug, Clone)]
pub struct PeerResponse {
    /// The number of seconds to wait between regular announces.
    pub interval: u64,
    /// The least number of seconds between announces, where the tracker
    /// names one.
    pub min_interval: Option<u64>,
    /// The peers, in the order in which the tracker lists them.
    pub peers: Vec<Peer>,
}

/// What a `Peer` stands for.
pub struct PeerView {
    pub port: u16,
    pub ip: Seq<u8>,
}

/// What a `PeerResponse` stands for.
pub struct PeerResponseView {
    pub interval: u64,
    pub min_interval: Option<u64>,
    pub peers: Seq<PeerView>,
}

impl View for Peer {
    type V = PeerView;

    open spec fn view(&self) -> PeerView {
        PeerView { port: self.port, ip: self.ip@ }
    }
}

/// What a sequence of `Peer` stands for.
pub open spec fn peers_view(peers: Seq<Peer>) -> Seq<PeerView> {
    Seq::new(peers.len(), |i: int| peers[i]@)
}

impl View for PeerResponse {
    type V = PeerResponseView;

    open spec fn view(&self) -> PeerResponseView {
        PeerResponseView {
            interval: self.interval,
            min_interval: self.min_interval,
            peers: peers_view(self.peers@),
        }
    }
}

/// The peer that record `i` of a compact list describes: four octets of
/// address, then the port with its high byte first.
pub open spec fn compact_peer(bytes: Seq<u8>, i: int) -> PeerView {
    PeerView {
        port: (bytes[6 * i + 4] as int * 256 + bytes[6 * i + 5] as int) as u16,
        ip: bytes.subrange(6 * i, 6 * i + 4),
    }
}

/// The peers of a compact list: one for every 6 bytes, in their order; an
/// error where the length is not a multiple of 6.
pub open spec fn compact_peers(bytes: Seq<u8>) -> Result<Seq<PeerView>, TrackerError> {
    if bytes.len() % 6 == 0 {
        Ok(Seq::new(bytes.len() / 6, |i: int| compact_peer(bytes, i)))
    } else {
        Err(TrackerError::InvalidPeerListLength)
    }
}

/// The tracker's answer as the typed model has it. The fields are looked
/// at in this order: `interval`, `min interval`, `peers`, and last the
/// length of the list of peers.
pub open spec fn response_of(v: Bencode) -> Result<PeerResponseView, TrackerError> {
    match v {
        Bencode::Dict(entries) => match unsigned_field(entries, Field::Interval) {
            Err(e) => Err(TrackerError::Schema(e)),
            Ok(interval) => match optional_unsigned_field(entries, Field::MinInterval) {
                Err(e) => Err(TrackerError::Schema(e)),
                Ok(min_interval) => match bytes_field(entries, Field::Peers) {
                    Err(e) => Err(TrackerError::Schema(e)),
                    Ok(list) => match compact_peers(list) {
                        Err(e) => Err(e),
                        Ok(peers) => Ok(PeerResponseView { interval, min_interval, peers }),
                    },
                },
            },
        },
        _ => Err(TrackerError::Schema(mismatch(Field::Root, Expected::Dictionary))),
    }
}

/// What the body of the tracker's answer holds: the value it begins with,
/// read as a response.
pub open spec fn response_of_bytes(body: Seq<u8>) -> Result<PeerResponseView, TrackerError> {
    match parse_unbounded(body, 0) {
        Err(e) => Err(TrackerError::Decode(e)),
        Ok((v, _)) => response_of(v),
    }
}

/// Reads a compact list of peers: 6 bytes for each peer, four octets of
/// IPv4 address in their order and the port with its high byte first.
/// Fails where the length of the list is not a multiple of 6.
pub fn decode_compact_peers(bytes: &[u8]) -> (r: Result<Vec<Peer>, TrackerError>)
    ensures
        match r {
            Ok(peers) => compact_peers(bytes@) == Ok::<Seq<PeerView>, TrackerError>(
                peers_view(peers@),
            ),
            Err(e) => compact_peers(bytes@) == Err::<Seq<PeerView>, TrackerError>(e),
        },
{
    let len: usize = bytes.len();
    if len % 6 != 0 {
        return Err(TrackerError::InvalidPeerListLength);
    }
    let count: usize = len / 6;
    let mut peers: Vec<Peer> = Vec::new();
    let mut i: usize = 0;
    while i < count
        invariant
            i <= count,
            len == bytes@.len(),
            count == len / 6,
            len % 6 == 0,
            peers@.len() == i,
            forall|k: int| 0 <= k < i ==> (#[trigger] peers@[k])@ == compact_peer(bytes@, k),
        decreases count - i,
    {
        let at: usize = 6 * i;
        let ip: [u8; 4] = [bytes[at], bytes[at + 1], bytes[at + 2], bytes[at + 3]];
        let port: u16 = (bytes[at + 4] as u16) * 256 + (bytes[at + 5] as u16);
        assert(ip@ =~= bytes@.subrange(6 * i, 6 * i + 4));
        peers.push(Peer { port, ip });
        i += 1;
    }
    assert(peers_view(peers@) =~= Seq::new(bytes@.len() / 6, |i: int| compact_peer(bytes@, i)));
    Ok(peers)
}

impl PeerResponse {
    /// Reads the tracker's answer out of a decoded value.
    ///
    /// `interval` has to be an integer that is not negative, `min
    /// interval` too where it is there, and `peers` a byte string in the
    /// compact form. The first at fault is reported, in the order given at
    /// `response_of`.
    pub fn from_bencode(value: &BencodeValue) -> (r: Result<PeerResponse, TrackerError>)
        ensures
            match r {
                Ok(response) => response_of(value@) == Ok::<PeerResponseView, TrackerError>(
                    response@,
                ),
                Err(e) => response_of(value@) == Err::<PeerResponseView, TrackerError>(e),
            },
    {
        match value {
            BencodeValue::Dictionary(entries) => {
                let interval = match required_unsigned(entries, Field::Interval) {
                    Ok(n) => n,
                    Err(e) => {
                        return Err(TrackerError::Schema(e));
                    },
                };
                let min_interval = match optional_unsigned(entries, Field::MinInterval) {
                    Ok(n) => n,
                    Err(e) => {
                        return Err(TrackerError::Schema(e));
                    },
                };
                match find(entries, Field::Peers) {
                    Some(BencodeValue::ByteString(list)) => match decode_compact_peers(
                        list.as_slice(),
                    ) {
                        Ok(peers) => Ok(PeerResponse { interval, min_interval, peers }),
                        Err(e) => Err(e),
                    },
                    _ => Err(
                        TrackerError::Schema(
                            SchemaError { field: Field::Peers, expected: Expected::ByteString },
                        ),
                    ),
                }
            },
            _ => Err(
                TrackerError::Schema(
                    SchemaError { field: Field::Root, expected: Expected::Dictionary },
                ),
            ),
        }
    }
}

/// Reads the body of the tracker's answer to an announce: decodes the
/// value it begins with and reads it as a response.
///
/// Fails with `Decode` where the body is not bencode, with `Schema` where
/// `interval` or `peers` is missing or a field is of another kind than it
/// has to be, and with `InvalidPeerListLength` where the list of peers is
/// not made of records of 6 bytes.
///
/// Nesting is not limited here. For a body from a tracker that is not
/// trusted decode with `decode_one_bounded` and read the value with
/// `PeerResponse::from_bencode`.
pub fn decode_announce_response(body: &[u8]) -> (r: Result<PeerResponse, TrackerError>)
    ensures
        match r {
            Ok(response) => response_of_bytes(body@) == Ok::<PeerResponseView, TrackerError>(
                response@,
            ),
            Err(e) => response_of_bytes(body@) == Err::<PeerResponseView, TrackerError>(e),
        },
{
    match decode_top_level(body) {
        Err(e) => Err(TrackerError::Decode(e)),
        Ok(value) => PeerResponse::from_bencode(&value),
    }
}

/// The state of discovery for one torrent: what every announce says of
/// this client and of how far the transfer has come.
///
/// Made once for each attempt to download a torrent. The counters change
/// only through `record_uploaded`, `record_downloaded` and
/// `record_piece_verified`, which take the session by `&mut`: there is
/// one writer, and an update that cannot be made leaves everything as it
/// was.
pub struct PeerDiscovery {
    announce_url: String,
    info_hash: Vec<u8>,
    peer_id: Vec<u8>,
    port: u16,
    uploaded: u64,
    downloaded: u64,
    left: u64,
    compact: bool,
}

/// What a `PeerDiscovery` stands for.
pub struct PeerDiscoveryView {
    /// The URL of the tracker.
    pub announce_url: Seq<char>,
    /// The info hash of the torrent: 20 bytes.
    pub info_hash: Seq<u8>,
    /// The name by which this client goes.
    pub peer_id: Seq<u8>,
    /// The port on which this client listens.
    pub port: u16,
    /// The number of bytes sent to peers so far.
    pub uploaded: u64,
    /// The number of bytes received from peers so far.
    pub downloaded: u64,
    /// The number of bytes still to come.
    pub left: u64,
    /// Whether the tracker is asked for the compact list of peers.
    pub compact: bool,
}

/// The URL of an announce: the tracker's URL, `?`, and the parameters
/// joined by `&`: `info_hash` and `peer_id` percent-encoded, the numbers in
/// decimal.
pub open spec fn announce_url_text(s: PeerDiscoveryView) -> Seq<char> {
    s.announce_url + "?info_hash="@ + ascii_text(percent_encoded(s.info_hash)) + "&peer_id="@
        + ascii_text(percent_encoded(s.peer_id)) + "&port="@ + ascii_text(decimal(s.port as nat))
        + "&uploaded="@ + ascii_text(decimal(s.uploaded as nat)) + "&downloaded="@ + ascii_text(
        decimal(s.downloaded as nat),
    ) + "&left="@ + ascii_text(decimal(s.left as nat)) + "&compact="@ + (if s.compact {
        "1"@
    } else {
        "0"@
    })
}

/// Appends text made of ASCII bytes to a URL.
fn append_ascii(url: &mut String, bytes: &[u8])
    requires
        is_ascii_bytes(bytes@),
    ensures
        final(url)@ == old(url)@ + ascii_text(bytes@),
{
    let piece = ascii_string(bytes);
    url.append(piece.as_str());
}

/// Appends a number in decimal to a URL.
fn append_number(url: &mut String, n: u64)
    ensures
        final(url)@ == old(url)@ + ascii_text(decimal(n as nat)),
{
    let mut digits: Vec<u8> = Vec::new();
    push_decimal(&mut digits, n);
    proof {
        lemma_decimal_is_canonical(n as nat);
        assert(digits@ =~= decimal(n as nat));
    }
    append_ascii(url, digits.as_slice());
}

/// Appends bytes in percent-encoding to a URL.
fn append_percent_encoded(url: &mut String, bytes: &[u8])
    ensures
        final(url)@ == old(url)@ + ascii_text(percent_encoded(bytes@)),
{
    let encoded = percent_encode(bytes);
    proof {
        lemma_percent_encoded_is_ascii(bytes@);
    }
    append_ascii(url, encoded.as_slice());
}

impl View for PeerDiscovery {
    type V = PeerDiscoveryView;

    closed spec fn view(&self) -> PeerDiscoveryView {
        PeerDiscoveryView {
            announce_url: self.announce_url@,
            info_hash: self.info_hash@,
            peer_id: self.peer_id@,
            port: self.port,
            uploaded: self.uploaded,
            downloaded: self.downloaded,
            left: self.left,
            compact: self.compact,
        }
    }
}

impl PeerDiscovery {
    #[verifier::type_invariant]
    spec fn well_formed(&self) -> bool {
        self.info_hash@.len() == DIGEST_LEN
    }

    /// Starts discovery for `torrent`, as the client that goes by
    /// `peer_id` and listens on `port`.
    ///
    /// Nothing is uploaded or downloaded yet, and all of the torrent is
    /// left to come. The torrent has to be one whose info hash can be
    /// taken and whose total length fits 64 bits.
    pub fn new(peer_id: &str, port: u16, torrent: Torrent) -> (session: PeerDiscovery)
        requires
            torrent@.info.encodable(),
            torrent@.info.file_tree.total_length() <= u64::MAX,
        ensures
            session@ == (PeerDiscoveryView {
                announce_url: torrent@.announce,
                info_hash: torrent@.info.info_hash(),
                peer_id: encode_utf8(peer_id@),
                port,
                uploaded: 0,
                downloaded: 0,
                left: torrent@.info.file_tree.total_length() as u64,
                compact: true,
            }),
            session@.info_hash.len() == DIGEST_LEN,
    {
        let info_hash = match calculate_info_hash_bytes(&torrent.info) {
            Ok(digest) => digest,
            Err(_) => Vec::new(),
        };
        let left = match torrent.info.file_tree.total_length() {
            Some(n) => n,
            None => 0,
        };
        PeerDiscovery {
            announce_url: torrent.announce,
            info_hash,
            peer_id: string_bytes(peer_id),
            port,
            uploaded: 0,
            downloaded: 0,
            left,
            compact: true,
        }
    }

    /// The URL that an announce requests: the tracker's URL, then the
    /// query with `info_hash` and `peer_id` percent-encoded byte by byte,
    /// `port`, `uploaded`, `downloaded` and `left` in decimal, and
    /// `compact=1`.
    pub fn build_announce_url(&self) -> (url: String)
        ensures
            url@ == announce_url_text(self@),
    {
        let mut url = self.announce_url.clone();
        url.append("?info_hash=");
        append_percent_encoded(&mut url, self.info_hash.as_slice());
        url.append("&peer_id=");
        append_percent_encoded(&mut url, self.peer_id.as_slice());
        url.append("&port=");
        append_number(&mut url, self.port as u64);
        url.append("&uploaded=");
        append_number(&mut url, self.uploaded);
        url.append("&downloaded=");
        append_number(&mut url, self.downloaded);
        url.append("&left=");
        append_number(&mut url, self.left);
        url.append("&compact=");
        if self.compact {
            url.append("1");
        } else {
            url.append("0");
        }
        url
    }

    /// The URL of the tracker.
    pub fn announce_url(&self) -> (url: &str)
        ensures
            url@ == self@.announce_url,
    {
        self.announce_url.as_str()
    }

    /// The port on which this client listens.
    pub fn port(&self) -> (port: u16)
        ensures
            port == self@.port,
    {
        self.port
    }

    /// The info hash of the torrent: 20 bytes.
    pub fn info_hash(&self) -> (hash: &[u8])
        ensures
            hash@ == self@.info_hash,
            hash@.len() == DIGEST_LEN,
    {
        proof {
            use_type_invariant(self);
        }
        self.info_hash.as_slice()
    }

    /// The name by which this client goes.
    pub fn peer_id(&self) -> (id: &[u8])
        ensures
            id@ == self@.peer_id,
    {
        self.peer_id.as_slice()
    }

    /// The number of bytes sent to peers so far.
    pub fn uploaded(&self) -> (n: u64)
        ensures
            n == self@.uploaded,
    {
        self.uploaded
    }

    /// The number of bytes received from peers so far.
    pub fn downloaded(&self) -> (n: u64)
        ensures
            n == self@.downloaded,
    {
        self.downloaded
    }

    /// The number of bytes still to come.
    pub fn left(&self) -> (n: u64)
        ensures
            n == self@.left,
    {
        self.left
    }

    /// Counts `bytes` more as sent to peers. Where the count would not fit
    /// 64 bits nothing changes, and the answer is `false`.
    pub fn record_uploaded(&mut self, bytes: u64) -> (done: bool)
        ensures
            done == (old(self)@.uploaded + bytes <= u64::MAX),
            done ==> final(self)@ == (PeerDiscoveryView {
                uploaded: (old(self)@.uploaded + bytes) as u64,
                ..old(self)@
            }),
            !done ==> final(self)@ == old(self)@,
    {
        proof {
            use_type_invariant(&*self);
        }
        if bytes > u64::MAX - self.uploaded {
            return false;
        }
        self.uploaded = self.uploaded + bytes;
        true
    }

    /// Counts `bytes` more as received from peers. Where the count would
    /// not fit 64 bits nothing changes, and the answer is `false`.
    pub fn record_downloaded(&mut self, bytes: u64) -> (done: bool)
        ensures
            done == (old(self)@.downloaded + bytes <= u64::MAX),
            done ==> final(self)@ == (PeerDiscoveryView {
                downloaded: (old(self)@.downloaded + bytes) as u64,
                ..old(self)@
            }),
            !done ==> final(self)@ == old(self)@,
    {
        proof {
            use_type_invariant(&*self);
        }
        if bytes > u64::MAX - self.downloaded {
            return false;
        }
        self.downloaded = self.downloaded + bytes;
        true
    }

    /// Counts a piece of `bytes` bytes as verified: that much less is left
    /// to come. Where more would be taken than is left nothing changes,
    /// and the answer is `false`.
    pub fn record_piece_verified(&mut self, bytes: u64) -> (done: bool)
        ensures
            done == (bytes <= old(self)@.left),
            done ==> final(self)@ == (PeerDiscoveryView {
                left: (old(self)@.left - bytes) as u64,
                ..old(self)@
            }),
            !done ==> final(self)@ == old(self)@,
    {
        proof {
            use_type_invariant(&*self);
        }
        if bytes > self.left {
            return false;
        }
        self.left = self.left - bytes;
        true
    }
}

} // verus!
