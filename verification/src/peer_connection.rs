//! The peer wire protocol as far as bytes go: the handshake that opens a
//! connection, the frames that follow it, and the four flags that say
//! who may ask whom for data.
//!
//! Peer connections are symmetrical. Messages sent in both directions look
//! the same, and data can flow in either direction.

use crate::digest::DIGEST_LEN;
use crate::schema::same_bytes;
use vstd::prelude::*;
use vstd::slice::{slice_subrange, slice_to_vec};
use vstd::string::*;
use vstd::utf8::{encode_utf8, is_ascii_chars, is_ascii_chars_encode_utf8};

verus! {

/// The length of a handshake in bytes.
pub const HANDSHAKE_LEN: usize = 68;

/// The length of the protocol's name, which is the first byte of a
/// handshake.
pub const PROTOCOL_NAME_LEN: u8 = 19;

/// The length of a peer id in bytes.
pub const PEER_ID_LEN: usize = 20;

/// The protocol's name as bytes: `BitTorrent protocol` in ASCII.
pub open spec fn protocol_name() -> Seq<u8> {
    encode_utf8("BitTorrent protocol"@)
}

/// The eight reserved bytes of a handshake: all zero.
pub open spec fn reserved_bytes() -> Seq<u8> {
    Seq::new(8, |i: int| 0u8)
}

/// The 68 bytes of a handshake: the length of the protocol's name, the
/// name, eight reserved bytes, the info hash, the peer id.
pub open spec fn handshake_bytes(info_hash: Seq<u8>, peer_id: Seq<u8>) -> Seq<u8> {
    seq![PROTOCOL_NAME_LEN] + protocol_name() + reserved_bytes() + info_hash + peer_id
}

/// The protocol's name is 19 bytes long.
pub proof fn lemma_protocol_name_len()
    ensures
        protocol_name().len() == 19,
{
    reveal_strlit("BitTorrent protocol");
    let name = "BitTorrent protocol"@;
    assert(name.len() == 19);
    assert(is_ascii_chars(name));
    is_ascii_chars_encode_utf8(name);
}

/// Why a handshake did not give the other side's peer id.
#[derive(Debug, Clone, Copy, PartialEq, Eq, Structural)]
pub enum HandshakeError {
    /// The peer could not be reached, or the connection broke. The
    /// library never reports this itself: it is for the caller that
    /// holds the connection.
    Network,
    /// The connection closed before 68 bytes had come.
    ShortRead,
    /// The reply does not start with 19 and the protocol's name.
    ProtocolMismatch,
}

/// What a reply to a handshake gives: the other side's peer id, which is
/// its bytes 48 to 67, or why it is no handshake.
pub open spec fn peer_id_of_reply(reply: Seq<u8>) -> Result<Seq<u8>, HandshakeError> {
    if reply.len() < HANDSHAKE_LEN {
        Err(HandshakeError::ShortRead)
    } else if reply[0] != PROTOCOL_NAME_LEN || reply.subrange(1, 20) != protocol_name() {
        Err(HandshakeError::ProtocolMismatch)
    } else {
        Ok(reply.subrange(48, 68))
    }
}

/// Appends all of `bytes` to `out`.
fn push_all(out: &mut Vec<u8>, bytes: &[u8])
    ensures
        final(out)@ == old(out)@ + bytes@,
{
    let mut i: usize = 0;
    assert(out@ =~= old(out)@ + bytes@.take(0));
    while i < bytes.len()
        invariant
            i <= bytes@.len(),
            out@ == old(out)@ + bytes@.take(i as int),
        decreases bytes@.len() - i,
    {
        out.push(bytes[i]);
        assert(out@ =~= old(out)@ + bytes@.take(i + 1));
        i += 1;
    }
    assert(bytes@.take(i as int) =~= bytes@);
}

/// Builds the handshake that opens a connection: 68 bytes, which are 19,
/// the protocol's name, eight zero bytes, the info hash and the peer id,
/// in this order.
pub fn generate_handshake(infohash: &[u8], peer_id: &[u8]) -> (handshake: Vec<u8>)
    requires
        infohash@.len() == DIGEST_LEN,
        peer_id@.len() == PEER_ID_LEN,
    ensures
        handshake@ == handshake_bytes(infohash@, peer_id@),
        handshake@.len() == HANDSHAKE_LEN,
        handshake@[0] == PROTOCOL_NAME_LEN,
        handshake@.subrange(1, 20) == protocol_name(),
        handshake@.subrange(20, 28) == reserved_bytes(),
        handshake@.subrange(28, 48) == infohash@,
        handshake@.subrange(48, 68) == peer_id@,
{
    let mut handshake: Vec<u8> = Vec::new();
    handshake.push(PROTOCOL_NAME_LEN);
    push_all(&mut handshake, "BitTorrent protocol".as_bytes());
    let ghost named = handshake@;
    let mut i: usize = 0;
    while i < 8
        invariant
            i <= 8,
            handshake@ == named + Seq::new(i as nat, |k: int| 0u8),
        decreases 8 - i,
    {
        handshake.push(0);
        assert(handshake@ =~= named + Seq::new((i + 1) as nat, |k: int| 0u8));
        i += 1;
    }
    push_all(&mut handshake, infohash);
    push_all(&mut handshake, peer_id);
    proof {
        lemma_protocol_name_len();
        assert(named =~= seq![PROTOCOL_NAME_LEN] + protocol_name());
        assert(handshake@ =~= handshake_bytes(infohash@, peer_id@));
        assert(handshake@.subrange(1, 20) =~= protocol_name());
        assert(handshake@.subrange(20, 28) =~= reserved_bytes());
        assert(handshake@.subrange(28, 48) =~= infohash@);
        assert(handshake@.subrange(48, 68) =~= peer_id@);
    }
    handshake
}

/// Checks the reply to a handshake and gives the other side's peer id.
///
/// `reply` is what came in answer, 68 bytes where the other side sent
/// them all. Fewer is a `ShortRead`. A reply that does not start with 19
/// and the protocol's name is a `ProtocolMismatch`, and nothing of it is
/// taken for a peer id. What is behind byte 67 is not looked at.
pub fn read_handshake_reply(reply: &[u8]) -> (r: Result<Vec<u8>, HandshakeError>)
    ensures
        match r {
            Ok(id) => peer_id_of_reply(reply@) == Ok::<Seq<u8>, HandshakeError>(id@) && id@.len()
                == PEER_ID_LEN,
            Err(e) => peer_id_of_reply(reply@) == Err::<Seq<u8>, HandshakeError>(e),
        },
{
    if reply.len() < HANDSHAKE_LEN {
        return Err(HandshakeError::ShortRead);
    }
    if reply[0] != PROTOCOL_NAME_LEN {
        return Err(HandshakeError::ProtocolMismatch);
    }
    if !same_bytes(slice_subrange(reply, 1, 20), "BitTorrent protocol".as_bytes()) {
        return Err(HandshakeError::ProtocolMismatch);
    }
    Ok(slice_to_vec(slice_subrange(reply, 48, 68)))
}

/// A handshake that is read as a reply gives the peer id that it was
/// built with.
pub proof fn lemma_handshake_read_back(info_hash: Seq<u8>, peer_id: Seq<u8>)
    requires
        info_hash.len() == DIGEST_LEN,
        peer_id.len() == PEER_ID_LEN,
    ensures
        handshake_bytes(info_hash, peer_id).len() == HANDSHAKE_LEN,
        peer_id_of_reply(handshake_bytes(info_hash, peer_id)) == Ok::<Seq<u8>, HandshakeError>(
            peer_id,
        ),
{
    lemma_protocol_name_len();
    let h = handshake_bytes(info_hash, peer_id);
    assert(h.subrange(1, 20) =~= protocol_name());
    assert(h.subrange(48, 68) =~= peer_id);
}

/// What a message is about, for the ids that the protocol knows.
#[derive(Debug, Clone, Copy, PartialEq, Eq, Structural)]
pub enum MessageKind {
    /// No data will be sent until `Unchoke`.
    Choke,
    /// Data may be asked for.
    Unchoke,
    /// The sender would ask for data.
    Interested,
    /// The sender has nothing to ask for.
    NotInterested,
    /// The sender has a piece.
    Have,
    /// The pieces that the sender has.
    Bitfield,
    /// A request for a block of a piece.
    Request,
    /// A block of a piece.
    Piece,
    /// A request taken back.
    Cancel,
}

impl MessageKind {
    /// The id that stands for this kind on the wire.
    pub open spec fn spec_id(self) -> u8 {
        match self {
            MessageKind::Choke => 0,
            MessageKind::Unchoke => 1,
            MessageKind::Interested => 2,
            MessageKind::NotInterested => 3,
            MessageKind::Have => 4,
            MessageKind::Bitfield => 5,
            MessageKind::Request => 6,
            MessageKind::Piece => 7,
            MessageKind::Cancel => 8,
        }
    }

    /// The kind that an id stands for; `None` for an id that the protocol
    /// does not know.
    pub open spec fn spec_from_id(id: u8) -> Option<MessageKind> {
        if id == 0 {
            Some(MessageKind::Choke)
        } else if id == 1 {
            Some(MessageKind::Unchoke)
        } else if id == 2 {
            Some(MessageKind::Interested)
        } else if id == 3 {
            Some(MessageKind::NotInterested)
        } else if id == 4 {
            Some(MessageKind::Have)
        } else if id == 5 {
            Some(MessageKind::Bitfield)
        } else if id == 6 {
            Some(MessageKind::Request)
        } else if id == 7 {
            Some(MessageKind::Piece)
        } else if id == 8 {
            Some(MessageKind::Cancel)
        } else {
            None
        }
    }

    /// The id that stands for this kind on the wire.
    #[verifier::when_used_as_spec(spec_id)]
    pub fn id(self) -> (id: u8)
        ensures
            id == self.spec_id(),
            MessageKind::spec_from_id(id) == Some(self),
    {
        match self {
            MessageKind::Choke => 0,
            MessageKind::Unchoke => 1,
            MessageKind::Interested => 2,
            MessageKind::NotInterested => 3,
            MessageKind::Have => 4,
            MessageKind::Bitfield => 5,
            MessageKind::Request => 6,
            MessageKind::Piece => 7,
            MessageKind::Cancel => 8,
        }
    }

    /// The kind that an id stands for; `None` for an id that the protocol
    /// does not know, whose message is passed on as it is.
    #[verifier::when_used_as_spec(spec_from_id)]
    pub fn from_id(id: u8) -> (kind: Option<MessageKind>)
        ensures
            kind == MessageKind::spec_from_id(id),
            kind matches Some(k) ==> k.spec_id() == id,
            kind is Some <==> id <= 8,
    {
        match id {
            0 => Some(MessageKind::Choke),
            1 => Some(MessageKind::Unchoke),
            2 => Some(MessageKind::Interested),
            3 => Some(MessageKind::NotInterested),
            4 => Some(MessageKind::Have),
            5 => Some(MessageKind::Bitfield),
            6 => Some(MessageKind::Request),
            7 => Some(MessageKind::Piece),
            8 => Some(MessageKind::Cancel),
            _ => None,
        }
    }
}

/// A message of the stream that follows the handshake.
#[derive(Debug, Clone, PartialEq, Eq)]
pub enum PeerMessage {
    /// A frame of length zero, sent to keep the connection open.
    KeepAlive,
    /// Any other frame: the id, and what follows it. The id may be one
    /// that the protocol does not know.
    Message {
        /// The first byte of the frame's body.
        id: u8,
        /// The rest of the frame's body.
        payload: Vec<u8>,
    },
}

/// What a `PeerMessage` stands for.
pub enum PeerMessageView {
    KeepAlive,
    Message { id: u8, payload: Seq<u8> },
}

impl View for PeerMessage {
    type V = PeerMessageView;

    open spec fn view(&self) -> PeerMessageView {
        match self {
            PeerMessage::KeepAlive => PeerMessageView::KeepAlive,
            PeerMessage::Message { id, payload } => PeerMessageView::Message {
                id: *id,
                payload: payload@,
            },
        }
    }
}

/// The four bytes of a frame's length, the highest first.
pub open spec fn length_prefix(n: nat) -> Seq<u8> {
    seq![
        (n / 0x100_0000 % 256) as u8,
        (n / 0x1_0000 % 256) as u8,
        (n / 0x100 % 256) as u8,
        (n % 256) as u8,
    ]
}

/// The length that the first four bytes of `buf` say, the highest byte
/// first.
pub open spec fn prefixed_length(buf: Seq<u8>) -> nat {
    (buf[0] as nat) * 0x100_0000 + (buf[1] as nat) * 0x1_0000 + (buf[2] as nat) * 0x100
        + buf[3] as nat
}

/// The length of a message's body: zero for a keep-alive, else one for the
/// id and the length of the payload.
pub open spec fn body_length(m: PeerMessageView) -> nat {
    match m {
        PeerMessageView::KeepAlive => 0,
        PeerMessageView::Message { id, payload } => 1 + payload.len(),
    }
}

/// The bytes of a message on the wire: the length of its body in four
/// bytes, then the body, which is the id and the payload.
pub open spec fn frame_bytes(m: PeerMessageView) -> Seq<u8> {
    match m {
        PeerMessageView::KeepAlive => length_prefix(0),
        PeerMessageView::Message { id, payload } => length_prefix(1 + payload.len()) + seq![id]
            + payload,
    }
}

/// The message that `buf` begins with and the number of bytes it takes
/// up; `None` where `buf` does not yet hold all of it.
pub open spec fn parse_frame(buf: Seq<u8>) -> Option<(PeerMessageView, nat)> {
    if buf.len() < 4 {
        None
    } else if prefixed_length(buf) == 0 {
        Some((PeerMessageView::KeepAlive, 4))
    } else if buf.len() < 4 + prefixed_length(buf) {
        None
    } else {
        Some(
            (
                PeerMessageView::Message {
                    id: buf[4],
                    payload: buf.subrange(5, 4 + prefixed_length(buf) as int),
                },
                4 + prefixed_length(buf),
            ),
        )
    }
}

/// The length that a frame's first four bytes say: how many bytes of body
/// follow them.
pub fn frame_length(prefix: &[u8; 4]) -> (n: u32)
    ensures
        n == prefixed_length(prefix@),
{
    let a: u32 = prefix[0] as u32;
    let b: u32 = prefix[1] as u32;
    let c: u32 = prefix[2] as u32;
    let d: u32 = prefix[3] as u32;
    a * 0x100_0000 + b * 0x1_0000 + c * 0x100 + d
}

/// Writes a message as a frame: the length of its body in four bytes, the
/// highest first, then the id and the payload; four zero bytes for a
/// keep-alive. `None` where the body is too long for its length to be
/// written in four bytes.
pub fn encode_message(message: &PeerMessage) -> (r: Option<Vec<u8>>)
    ensures
        match r {
            Some(bytes) => body_length(message@) <= u32::MAX && bytes@ == frame_bytes(message@),
            None => body_length(message@) > u32::MAX,
        },
{
    let mut out: Vec<u8> = Vec::new();
    match message {
        PeerMessage::KeepAlive => {
            out.push(0);
            out.push(0);
            out.push(0);
            out.push(0);
            assert(out@ =~= frame_bytes(message@));
            Some(out)
        },
        PeerMessage::Message { id, payload } => {
            if payload.len() as u64 >= 0xffff_ffff {
                return None;
            }
            let n: u32 = (payload.len() + 1) as u32;
            out.push((n / 0x100_0000) as u8);
            out.push((n / 0x1_0000 % 256) as u8);
            out.push((n / 0x100 % 256) as u8);
            out.push((n % 256) as u8);
            out.push(*id);
            push_all(&mut out, payload.as_slice());
            assert(out@ =~= frame_bytes(message@));
            Some(out)
        },
    }
}

/// Reads the message that `buf` begins with and says how many bytes it
/// takes up. `None` where `buf` does not yet hold the whole message: fewer
/// than four bytes, or fewer behind them than they say. A message with an
/// id that the protocol does not know is read like any other.
pub fn decode_message(buf: &[u8]) -> (r: Option<(PeerMessage, usize)>)
    ensures
        match r {
            Some((message, consumed)) => parse_frame(buf@) == Some((message@, consumed as nat)),
            None => parse_frame(buf@) is None,
        },
{
    if buf.len() < 4 {
        return None;
    }
    let a: u64 = buf[0] as u64;
    let b: u64 = buf[1] as u64;
    let c: u64 = buf[2] as u64;
    let d: u64 = buf[3] as u64;
    let n: u64 = a * 0x100_0000 + b * 0x1_0000 + c * 0x100 + d;
    if n == 0 {
        return Some((PeerMessage::KeepAlive, 4));
    }
    if (buf.len() as u64) < 4 + n {
        return None;
    }
    let end: usize = (4 + n) as usize;
    let payload = slice_to_vec(slice_subrange(buf, 5, end));
    Some((PeerMessage::Message { id: buf[4], payload }, end))
}

/// A message that is written and read back is the same message, and
/// reading takes up exactly the bytes written, whatever follows them.
pub proof fn lemma_frame_read_back(m: PeerMessageView, rest: Seq<u8>)
    requires
        body_length(m) <= u32::MAX,
    ensures
        parse_frame(frame_bytes(m) + rest) == Some((m, frame_bytes(m).len())),
{
    let n = body_length(m);
    let buf = frame_bytes(m) + rest;
    assert(buf[0] == length_prefix(n)[0]);
    assert(buf[1] == length_prefix(n)[1]);
    assert(buf[2] == length_prefix(n)[2]);
    assert(buf[3] == length_prefix(n)[3]);
    assert(prefixed_length(buf) == n);
    match m {
        PeerMessageView::KeepAlive => {},
        PeerMessageView::Message { id, payload } => {
            assert(buf[4] == id);
            assert(buf.subrange(5, 4 + n as int) =~= payload);
        },
    }
}

/// The four flags of a connection. Each side chokes the other or not, and
/// is interested in what the other has or not.
#[derive(Debug, Clone, Copy, PartialEq, Eq, Structural)]
pub struct ConnectionState {
    /// This side sends no data to the peer.
    pub am_choking: bool,
    /// This side would ask the peer for data.
    pub am_interested: bool,
    /// The peer sends no data to this side.
    pub peer_choking: bool,
    /// The peer would ask this side for data.
    pub peer_interested: bool,
}

impl ConnectionState {
    /// The state right after the handshake: both sides choke, and neither
    /// is interested.
    pub open spec fn initial() -> ConnectionState {
        ConnectionState {
            am_choking: true,
            am_interested: false,
            peer_choking: true,
            peer_interested: false,
        }
    }

    /// The state after a message with this id has come from the peer.
    /// Only `choke`, `unchoke`, `interested` and `not interested` change
    /// anything, and only the peer's two flags.
    pub open spec fn after_received(self, id: u8) -> ConnectionState {
        if id == 0 {
            ConnectionState { peer_choking: true, ..self }
        } else if id == 1 {
            ConnectionState { peer_choking: false, ..self }
        } else if id == 2 {
            ConnectionState { peer_interested: true, ..self }
        } else if id == 3 {
            ConnectionState { peer_interested: false, ..self }
        } else {
            self
        }
    }

    /// The state after a message with this id has gone to the peer. Only
    /// `choke`, `unchoke`, `interested` and `not interested` change
    /// anything, and only this side's two flags.
    pub open spec fn after_sent(self, id: u8) -> ConnectionState {
        if id == 0 {
            ConnectionState { am_choking: true, ..self }
        } else if id == 1 {
            ConnectionState { am_choking: false, ..self }
        } else if id == 2 {
            ConnectionState { am_interested: true, ..self }
        } else if id == 3 {
            ConnectionState { am_interested: false, ..self }
        } else {
            self
        }
    }

    /// Whether this side may ask the peer for data: it is interested, and
    /// the peer does not choke it.
    pub open spec fn may_request(self) -> bool {
        self.am_interested && !self.peer_choking
    }

    /// Whether the peer may ask this side for data: the peer is
    /// interested, and this side does not choke it.
    pub open spec fn may_serve(self) -> bool {
        self.peer_interested && !self.am_choking
    }

    /// The state right after the handshake: both sides choke, and neither
    /// is interested.
    pub fn new() -> (state: ConnectionState)
        ensures
            state == ConnectionState::initial(),
            !state.may_request(),
            !state.may_serve(),
    {
        ConnectionState {
            am_choking: true,
            am_interested: false,
            peer_choking: true,
            peer_interested: false,
        }
    }

    /// The state after `message` has come from the peer. A keep-alive
    /// changes nothing.
    pub fn received(self, message: &PeerMessage) -> (next: ConnectionState)
        ensures
            next == match message@ {
                PeerMessageView::KeepAlive => self,
                PeerMessageView::Message { id, payload } => self.after_received(id),
            },
            next.am_choking == self.am_choking,
            next.am_interested == self.am_interested,
            message@ matches PeerMessageView::Message { id, payload } && id > 3 ==> next == self,
    {
        match message {
            PeerMessage::KeepAlive => self,
            PeerMessage::Message { id, payload } => {
                let mut next = self;
                if *id == 0 {
                    next.peer_choking = true;
                } else if *id == 1 {
                    next.peer_choking = false;
                } else if *id == 2 {
                    next.peer_interested = true;
                } else if *id == 3 {
                    next.peer_interested = false;
                }
                next
            },
        }
    }

    /// The state after `message` has gone to the peer. A keep-alive
    /// changes nothing.
    pub fn sent(self, message: &PeerMessage) -> (next: ConnectionState)
        ensures
            next == match message@ {
                PeerMessageView::KeepAlive => self,
                PeerMessageView::Message { id, payload } => self.after_sent(id),
            },
            next.peer_choking == self.peer_choking,
            next.peer_interested == self.peer_interested,
            message@ matches PeerMessageView::Message { id, payload } && id > 3 ==> next == self,
    {
        match message {
            PeerMessage::KeepAlive => self,
            PeerMessage::Message { id, payload } => {
                let mut next = self;
                if *id == 0 {
                    next.am_choking = true;
                } else if *id == 1 {
                    next.am_choking = false;
                } else if *id == 2 {
                    next.am_interested = true;
                } else if *id == 3 {
                    next.am_interested = false;
                }
                next
            },
        }
    }

    /// Whether this side may ask the peer for data.
    pub fn can_request(&self) -> (r: bool)
        ensures
            r == self.may_request(),
    {
        self.am_interested && !self.peer_choking
    }

    /// Whether the peer may ask this side for data.
    pub fn can_serve(&self) -> (r: bool)
        ensures
            r == self.may_serve(),
    {
        self.peer_interested && !self.am_choking
    }
}

} // verus!
