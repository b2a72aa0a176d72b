use bt_protocol::grammar::DecodeError;
use bt_protocol::parser::{FileInfo, FileTree, Info, Torrent};
use bt_protocol::schema::{Expected, Field, SchemaError};
use bt_protocol::tracker::{
    decode_announce_response, decode_compact_peers, Peer, PeerDiscovery, TrackerError,
};
use bt_protocol::urlencode::percent_encode;

fn torrent(announce: &str, file_tree: FileTree) -> Torrent {
    Torrent {
        announce: announce.to_string(),
        info: Info {
            name: "a.txt".to_string(),
            piece_length: 16384,
            pieces: (0u8..40).collect(),
            file_tree,
        },
        comment: None,
        created_by: None,
        creation_date: None,
        encoding: None,
    }
}

fn session() -> PeerDiscovery {
    PeerDiscovery::new(
        "00112233445566778899",
        6969,
        torrent("http://tracker/announce", FileTree::SingleFile { length: 12 }),
    )
}

fn schema(field: Field, expected: Expected) -> TrackerError {
    TrackerError::Schema(SchemaError { field, expected })
}

fn error_of(body: &[u8]) -> TrackerError {
    match decode_announce_response(body) {
        Ok(_) => panic!("the body was read as a response"),
        Err(e) => e,
    }
}

#[test]
fn compact_peers_of_eighteen_bytes() {
    let bytes = [
        192, 168, 1, 2, 0x1a, 0xe1, 10, 0, 0, 1, 0, 80, 255, 254, 253, 252, 0xff, 0xff,
    ];
    assert_eq!(
        decode_compact_peers(&bytes),
        Ok(vec![
            Peer { ip: [192, 168, 1, 2], port: 6881 },
            Peer { ip: [10, 0, 0, 1], port: 80 },
            Peer { ip: [255, 254, 253, 252], port: 65535 },
        ])
    );
}

#[test]
fn compact_peers_of_seventeen_bytes() {
    assert_eq!(
        decode_compact_peers(&[0; 17]),
        Err(TrackerError::InvalidPeerListLength)
    );
    assert_eq!(
        decode_compact_peers(&[0; 1]),
        Err(TrackerError::InvalidPeerListLength)
    );
    assert_eq!(
        decode_compact_peers(&[0; 7]),
        Err(TrackerError::InvalidPeerListLength)
    );
}

#[test]
fn compact_peers_of_nothing() {
    assert_eq!(decode_compact_peers(&[]), Ok(vec![]));
}

#[test]
fn compact_port_has_its_high_byte_first() {
    assert_eq!(
        decode_compact_peers(&[1, 2, 3, 4, 1, 0]),
        Ok(vec![Peer { ip: [1, 2, 3, 4], port: 256 }])
    );
    assert_eq!(
        decode_compact_peers(&[1, 2, 3, 4, 0, 1]),
        Ok(vec![Peer { ip: [1, 2, 3, 4], port: 1 }])
    );
}

#[test]
fn response_with_peers() {
    let body = b"d8:intervali1800e12:min intervali900e5:peers12:\x7f\x00\x00\x01\x1a\xe1\x0a\x00\x00\x02\x00\x50e";
    let response = decode_announce_response(body).unwrap();
    assert_eq!(response.interval, 1800);
    assert_eq!(response.min_interval, Some(900));
    assert_eq!(
        response.peers,
        vec![
            Peer { ip: [127, 0, 0, 1], port: 6881 },
            Peer { ip: [10, 0, 0, 2], port: 80 },
        ]
    );
}

#[test]
fn response_without_min_interval() {
    let response = decode_announce_response(b"d8:intervali60e5:peers0:e").unwrap();
    assert_eq!(response.interval, 60);
    assert_eq!(response.min_interval, None);
    assert_eq!(response.peers, vec![]);
}

#[test]
fn response_that_is_no_bencode() {
    assert_eq!(error_of(b"<html>"), TrackerError::Decode(DecodeError::InvalidPrefix));
    assert_eq!(
        error_of(b"d8:intervali60e"),
        TrackerError::Decode(DecodeError::UnterminatedDict)
    );
}

#[test]
fn response_that_is_no_dictionary() {
    assert_eq!(error_of(b"le"), schema(Field::Root, Expected::Dictionary));
}

#[test]
fn response_without_interval() {
    assert_eq!(
        error_of(b"d5:peers0:e"),
        schema(Field::Interval, Expected::Unsigned)
    );
    assert_eq!(
        error_of(b"d8:interval2:605:peers0:e"),
        schema(Field::Interval, Expected::Unsigned)
    );
    assert_eq!(
        error_of(b"d8:intervali-1e5:peers0:e"),
        schema(Field::Interval, Expected::Unsigned)
    );
}

#[test]
fn response_with_min_interval_of_another_kind() {
    assert_eq!(
        error_of(b"d8:intervali60e12:min interval1:x5:peers0:e"),
        schema(Field::MinInterval, Expected::Unsigned)
    );
}

#[test]
fn response_without_peers() {
    assert_eq!(
        error_of(b"d8:intervali60ee"),
        schema(Field::Peers, Expected::ByteString)
    );
    assert_eq!(
        error_of(b"d8:intervali60e5:peerslee"),
        schema(Field::Peers, Expected::ByteString)
    );
}

#[test]
fn response_with_a_broken_list_of_peers() {
    assert_eq!(
        error_of(b"d8:intervali60e5:peers5:abcdee"),
        TrackerError::InvalidPeerListLength
    );
}

#[test]
fn percent_encoding_keeps_unreserved_bytes() {
    assert_eq!(
        percent_encode(b"AZaz09-._~"),
        b"AZaz09-._~".to_vec()
    );
}

#[test]
fn percent_encoding_escapes_the_rest() {
    assert_eq!(
        percent_encode(&[0x00, 0x12, b' ', b'*', b'+', b'%', b'/', b'?', b'&', b'=', 0x7f, 0x80, 0xab, 0xff]),
        b"%00%12%20%2A%2B%25%2F%3F%26%3D%7F%80%AB%FF".to_vec()
    );
    assert_eq!(percent_encode(b"@[`{"), b"%40%5B%60%7B".to_vec());
    assert_eq!(percent_encode(b""), b"".to_vec());
}

#[test]
fn new_session() {
    let s = session();
    assert_eq!(s.uploaded(), 0);
    assert_eq!(s.downloaded(), 0);
    assert_eq!(s.left(), 12);
    assert_eq!(s.peer_id(), b"00112233445566778899");
    assert_eq!(
        s.info_hash(),
        [174, 59, 225, 65, 85, 219, 98, 231, 155, 76, 82, 177, 131, 41, 97, 137, 44, 94, 140, 210]
    );
}

#[test]
fn new_session_of_several_files() {
    let files = vec![
        FileInfo { length: 5, path: vec!["a".to_string()] },
        FileInfo { length: 7, path: vec!["b".to_string()] },
    ];
    let s = PeerDiscovery::new("p", 1, torrent("u", FileTree::MultiFile { files }));
    assert_eq!(s.left(), 12);
}

#[test]
fn announce_url() {
    assert_eq!(
        session().build_announce_url(),
        "http://tracker/announce?info_hash=%AE%3B%E1AU%DBb%E7%9BLR%B1%83%29a%89%2C%5E%8C%D2&peer_id=00112233445566778899&port=6969&uploaded=0&downloaded=0&left=12&compact=1"
    );
}

#[test]
fn announce_url_with_counters() {
    let mut s = session();
    assert!(s.record_uploaded(1024));
    assert!(s.record_downloaded(18446744073709551615));
    assert!(s.record_piece_verified(5));
    let url = s.build_announce_url();
    assert!(url.ends_with(
        "&port=6969&uploaded=1024&downloaded=18446744073709551615&left=7&compact=1"
    ));
}

#[test]
fn announce_url_escapes_the_peer_id() {
    let s = PeerDiscovery::new(
        "-AB1234-\u{e9} &=",
        65535,
        torrent("http://t", FileTree::SingleFile { length: 0 }),
    );
    let url = s.build_announce_url();
    assert!(url.contains("&peer_id=-AB1234-%C3%A9%20%26%3D&port=65535&"));
    assert!(url.ends_with("&left=0&compact=1"));
}

#[test]
fn counters_that_would_overflow_stay() {
    let mut s = session();
    assert!(s.record_uploaded(u64::MAX));
    assert!(!s.record_uploaded(1));
    assert_eq!(s.uploaded(), u64::MAX);
    assert!(s.record_downloaded(10));
    assert!(!s.record_downloaded(u64::MAX));
    assert_eq!(s.downloaded(), 10);
    assert!(s.record_downloaded(u64::MAX - 10));
    assert_eq!(s.downloaded(), u64::MAX);
}

#[test]
fn pieces_verified_take_from_what_is_left() {
    let mut s = session();
    assert!(!s.record_piece_verified(13));
    assert_eq!(s.left(), 12);
    assert!(s.record_piece_verified(12));
    assert_eq!(s.left(), 0);
    assert!(!s.record_piece_verified(1));
    assert!(s.record_piece_verified(0));
    assert_eq!(s.left(), 0);
    assert_eq!(s.uploaded(), 0);
    assert_eq!(s.downloaded(), 0);
}
