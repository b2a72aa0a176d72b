use bt_protocol::digest::to_hex;
use bt_protocol::peer_connection::{
    decode_message, encode_message, frame_length, generate_handshake, read_handshake_reply,
    ConnectionState, HandshakeError, MessageKind, PeerMessage,
};

fn message(id: u8, payload: &[u8]) -> PeerMessage {
    PeerMessage::Message { id, payload: payload.to_vec() }
}

fn hash() -> Vec<u8> {
    (1u8..=20).collect()
}

fn reply() -> Vec<u8> {
    generate_handshake(&hash(), b"-XY0001-abcdefghijkl")
}

#[test]
fn handshake_layout() {
    let handshake = generate_handshake(&hash(), b"00112233445566778899");
    assert_eq!(handshake.len(), 68);
    assert_eq!(handshake[0], 19);
    assert_eq!(&handshake[1..20], b"BitTorrent protocol");
    assert_eq!(&handshake[20..28], &[0u8; 8]);
    assert_eq!(&handshake[28..48], &hash()[..]);
    assert_eq!(&handshake[48..68], b"00112233445566778899");
}

#[test]
fn handshake_of_any_bytes() {
    let handshake = generate_handshake(&[0xff; 20], &[0x00; 20]);
    let mut expected = vec![19u8];
    expected.extend_from_slice(b"BitTorrent protocol");
    expected.extend_from_slice(&[0; 8]);
    expected.extend_from_slice(&[0xff; 20]);
    expected.extend_from_slice(&[0; 20]);
    assert_eq!(handshake, expected);
}

#[test]
fn reply_gives_the_peer_id() {
    assert_eq!(
        read_handshake_reply(&reply()),
        Ok(b"-XY0001-abcdefghijkl".to_vec())
    );
}

#[test]
fn reply_with_other_reserved_bytes_and_hash() {
    let mut bytes = reply();
    bytes[25] = 0x10;
    bytes[27] = 0x05;
    bytes[30] = 0;
    assert_eq!(
        read_handshake_reply(&bytes),
        Ok(b"-XY0001-abcdefghijkl".to_vec())
    );
}

#[test]
fn reply_with_more_behind_it() {
    let mut bytes = reply();
    bytes.extend_from_slice(&[0, 0, 0, 0]);
    assert_eq!(
        read_handshake_reply(&bytes),
        Ok(b"-XY0001-abcdefghijkl".to_vec())
    );
}

#[test]
fn reply_that_is_short() {
    assert_eq!(read_handshake_reply(&[]), Err(HandshakeError::ShortRead));
    assert_eq!(
        read_handshake_reply(&reply()[..67]),
        Err(HandshakeError::ShortRead)
    );
    assert_eq!(
        read_handshake_reply(&[0; 20]),
        Err(HandshakeError::ShortRead)
    );
}

#[test]
fn reply_with_another_length_byte() {
    let mut bytes = reply();
    bytes[0] = 18;
    assert_eq!(
        read_handshake_reply(&bytes),
        Err(HandshakeError::ProtocolMismatch)
    );
    bytes[0] = 0;
    assert_eq!(
        read_handshake_reply(&bytes),
        Err(HandshakeError::ProtocolMismatch)
    );
}

#[test]
fn reply_with_another_protocol_name() {
    let mut bytes = reply();
    bytes[1] = b'b';
    assert_eq!(
        read_handshake_reply(&bytes),
        Err(HandshakeError::ProtocolMismatch)
    );
    let mut bytes = reply();
    bytes[19] = b'L';
    assert_eq!(
        read_handshake_reply(&bytes),
        Err(HandshakeError::ProtocolMismatch)
    );
    assert_eq!(
        read_handshake_reply(&[19; 68]),
        Err(HandshakeError::ProtocolMismatch)
    );
}

#[test]
fn hexadecimal_of_a_peer_id() {
    assert_eq!(to_hex(&[0x00, 0x0f, 0xa0, 0xff]), "000fa0ff");
    assert_eq!(to_hex(&[]), "");
}

#[test]
fn keep_alive_frame() {
    assert_eq!(encode_message(&PeerMessage::KeepAlive), Some(vec![0, 0, 0, 0]));
    assert_eq!(
        decode_message(&[0, 0, 0, 0]),
        Some((PeerMessage::KeepAlive, 4))
    );
    assert_eq!(
        decode_message(&[0, 0, 0, 0, 9, 9]),
        Some((PeerMessage::KeepAlive, 4))
    );
}

#[test]
fn frames_of_messages() {
    assert_eq!(encode_message(&message(1, &[])), Some(vec![0, 0, 0, 1, 1]));
    assert_eq!(
        encode_message(&message(4, &[0, 0, 0, 7])),
        Some(vec![0, 0, 0, 5, 4, 0, 0, 0, 7])
    );
    let long = vec![0xaa; 0x1_02ff];
    let frame = encode_message(&message(7, &long)).unwrap();
    assert_eq!(&frame[..5], &[0x00, 0x01, 0x03, 0x00, 7]);
    assert_eq!(frame.len(), 4 + 0x1_0300);
}

#[test]
fn frames_read_back() {
    assert_eq!(
        decode_message(&[0, 0, 0, 1, 2]),
        Some((message(2, &[]), 5))
    );
    assert_eq!(
        decode_message(&[0, 0, 0, 5, 4, 0, 0, 0, 7, 0xff, 0xff]),
        Some((message(4, &[0, 0, 0, 7]), 9))
    );
    let long = vec![0x55; 70000];
    let frame = encode_message(&message(5, &long)).unwrap();
    assert_eq!(decode_message(&frame), Some((message(5, &long), 70005)));
}

#[test]
fn frames_with_unknown_ids_pass() {
    assert_eq!(
        decode_message(&[0, 0, 0, 3, 20, 1, 2]),
        Some((message(20, &[1, 2]), 7))
    );
    assert_eq!(
        encode_message(&message(255, &[9])),
        Some(vec![0, 0, 0, 2, 255, 9])
    );
}

#[test]
fn frames_that_are_not_all_there() {
    assert_eq!(decode_message(&[]), None);
    assert_eq!(decode_message(&[0, 0, 0]), None);
    assert_eq!(decode_message(&[0, 0, 0, 1]), None);
    assert_eq!(decode_message(&[0, 0, 0, 5, 4, 0, 0, 0]), None);
    assert_eq!(decode_message(&[0xff, 0xff, 0xff, 0xff, 1, 2, 3]), None);
}

#[test]
fn frame_length_has_its_high_byte_first() {
    assert_eq!(frame_length(&[0, 0, 0, 0]), 0);
    assert_eq!(frame_length(&[0, 0, 1, 2]), 258);
    assert_eq!(frame_length(&[1, 0, 0, 0]), 16777216);
    assert_eq!(frame_length(&[0x12, 0x34, 0x56, 0x78]), 0x12345678);
    assert_eq!(frame_length(&[0xff, 0xff, 0xff, 0xff]), u32::MAX);
}

#[test]
fn message_ids() {
    let kinds = [
        MessageKind::Choke,
        MessageKind::Unchoke,
        MessageKind::Interested,
        MessageKind::NotInterested,
        MessageKind::Have,
        MessageKind::Bitfield,
        MessageKind::Request,
        MessageKind::Piece,
        MessageKind::Cancel,
    ];
    for (id, kind) in kinds.iter().enumerate() {
        assert_eq!(kind.id() as usize, id);
        assert_eq!(MessageKind::from_id(id as u8), Some(*kind));
    }
    assert_eq!(MessageKind::from_id(9), None);
    assert_eq!(MessageKind::from_id(20), None);
    assert_eq!(MessageKind::from_id(255), None);
}

#[test]
fn connection_starts_choked_and_not_interested() {
    let state = ConnectionState::new();
    assert!(state.am_choking);
    assert!(state.peer_choking);
    assert!(!state.am_interested);
    assert!(!state.peer_interested);
    assert!(!state.can_request());
    assert!(!state.can_serve());
}

#[test]
fn received_messages_change_the_peer_flags() {
    let start = ConnectionState::new();
    let unchoked = start.received(&message(1, &[]));
    assert_eq!(unchoked, ConnectionState { peer_choking: false, ..start });
    let interested = unchoked.received(&message(2, &[]));
    assert_eq!(
        interested,
        ConnectionState { peer_choking: false, peer_interested: true, ..start }
    );
    let choked = interested.received(&message(0, &[]));
    assert_eq!(choked, ConnectionState { peer_interested: true, ..start });
    assert_eq!(choked.received(&message(3, &[])), start);
}

#[test]
fn sent_messages_change_our_flags() {
    let start = ConnectionState::new();
    let unchoked = start.sent(&message(1, &[]));
    assert_eq!(unchoked, ConnectionState { am_choking: false, ..start });
    let interested = unchoked.sent(&message(2, &[]));
    assert_eq!(
        interested,
        ConnectionState { am_choking: false, am_interested: true, ..start }
    );
    let choked = interested.sent(&message(0, &[]));
    assert_eq!(choked, ConnectionState { am_interested: true, ..start });
    assert_eq!(choked.sent(&message(3, &[])), start);
}

#[test]
fn other_messages_change_nothing() {
    let state = ConnectionState {
        am_choking: false,
        am_interested: true,
        peer_choking: false,
        peer_interested: true,
    };
    for id in 4..=255u8 {
        assert_eq!(state.received(&message(id, &[1, 2, 3])), state);
        assert_eq!(state.sent(&message(id, &[])), state);
    }
    assert_eq!(state.received(&PeerMessage::KeepAlive), state);
    assert_eq!(state.sent(&PeerMessage::KeepAlive), state);
}

#[test]
fn data_flows_when_interested_and_unchoked() {
    let start = ConnectionState::new();
    let interested = start.sent(&message(2, &[]));
    assert!(!interested.can_request());
    let unchoked = interested.received(&message(1, &[]));
    assert!(unchoked.can_request());
    assert!(!unchoked.can_serve());
    assert!(!unchoked.received(&message(0, &[])).can_request());
    assert!(!unchoked.sent(&message(3, &[])).can_request());
    let serving = start.received(&message(2, &[])).sent(&message(1, &[]));
    assert!(serving.can_serve());
    assert!(!serving.can_request());
}
