use bt_protocol::grammar::DecodeError;
use bt_protocol::parser::{
    calculate_info_hash, calculate_info_hash_bytes, calculate_urlencoded_info_hash,
    get_pieces_hashes, info_hash_of_file, parse_torrent_file, piece_hashes, FileInfo, FileTree,
    Info, MetainfoError, PiecesError, Torrent,
};
use bt_protocol::digest::to_hex;
use bt_protocol::schema::{Expected, Field, SchemaError};
use bt_protocol::codec::{decode_top_level, encode};
use bt_protocol::value::BencodeValue;

fn single_file_info() -> Vec<u8> {
    let mut bytes = b"d6:lengthi12e4:name5:a.txt12:piece lengthi16384e6:pieces40:".to_vec();
    bytes.extend(0u8..40);
    bytes.push(b'e');
    bytes
}

fn multi_file_info() -> Vec<u8> {
    let mut bytes = b"d5:filesld6:lengthi5e4:pathl1:a5:b.txteed6:lengthi7e4:pathl5:c.bineee4:name3:dir12:piece lengthi32768e6:pieces20:".to_vec();
    bytes.extend(100u8..120);
    bytes.push(b'e');
    bytes
}

fn torrent_around(info: &[u8]) -> Vec<u8> {
    let mut bytes = b"d8:announce23:http://tracker/announce7:comment2:hi10:created by4:test13:creation datei1700000000e8:encoding5:UTF-84:info".to_vec();
    bytes.extend_from_slice(info);
    bytes.push(b'e');
    bytes
}

fn schema(field: Field, expected: Expected) -> MetainfoError {
    MetainfoError::Schema(SchemaError { field, expected })
}

fn single_file() -> Info {
    Info {
        name: "a.txt".to_string(),
        piece_length: 16384,
        pieces: (0u8..40).collect(),
        file_tree: FileTree::SingleFile { length: 12 },
    }
}

fn parsed(bytes: &[u8]) -> Result<Torrent, MetainfoError> {
    parse_torrent_file(bytes)
}

fn error_of(bytes: &[u8]) -> MetainfoError {
    match parsed(bytes) {
        Ok(_) => panic!("the bytes were read as a torrent"),
        Err(e) => e,
    }
}

#[test]
fn parse_single_file() {
    let torrent = parsed(&torrent_around(&single_file_info())).unwrap();
    assert_eq!(torrent.announce, "http://tracker/announce");
    assert_eq!(torrent.comment, Some("hi".to_string()));
    assert_eq!(torrent.created_by, Some("test".to_string()));
    assert_eq!(torrent.creation_date, Some(1700000000));
    assert_eq!(torrent.encoding, Some("UTF-8".to_string()));
    assert_eq!(torrent.info.name, "a.txt");
    assert_eq!(torrent.info.piece_length, 16384);
    assert_eq!(torrent.info.pieces, (0u8..40).collect::<Vec<u8>>());
    match torrent.info.file_tree {
        FileTree::SingleFile { length } => assert_eq!(length, 12),
        FileTree::MultiFile { .. } => panic!("read as several files"),
    }
}

#[test]
fn parse_multi_file() {
    let torrent = parsed(&torrent_around(&multi_file_info())).unwrap();
    assert_eq!(torrent.info.name, "dir");
    assert_eq!(torrent.info.piece_length, 32768);
    match &torrent.info.file_tree {
        FileTree::MultiFile { files } => {
            assert_eq!(files.len(), 2);
            assert_eq!(files[0].length, 5);
            assert_eq!(files[0].path, vec!["a".to_string(), "b.txt".to_string()]);
            assert_eq!(files[1].length, 7);
            assert_eq!(files[1].path, vec!["c.bin".to_string()]);
        }
        FileTree::SingleFile { .. } => panic!("read as a single file"),
    }
    assert_eq!(torrent.info.file_tree.total_length(), Some(12));
}

#[test]
fn parse_without_the_optional_fields() {
    let mut bytes = b"d8:announce3:url4:info".to_vec();
    bytes.extend(single_file_info());
    bytes.push(b'e');
    let torrent = parsed(&bytes).unwrap();
    assert_eq!(torrent.announce, "url");
    assert_eq!(torrent.comment, None);
    assert_eq!(torrent.created_by, None);
    assert_eq!(torrent.creation_date, None);
    assert_eq!(torrent.encoding, None);
}

#[test]
fn parse_passes_over_unknown_keys() {
    let bytes = b"d8:announce3:url4:infod6:lengthi1e4:name1:n12:piece lengthi1e6:pieces0:7:privatei1ee5:nodeslee";
    let torrent = parsed(bytes).unwrap();
    assert_eq!(torrent.info.name, "n");
}

#[test]
fn parse_what_is_no_bencode() {
    assert_eq!(error_of(b""), MetainfoError::Decode(DecodeError::InvalidPrefix));
    assert_eq!(
        error_of(b"d8:announce"),
        MetainfoError::Decode(DecodeError::UnterminatedDict)
    );
    assert_eq!(
        error_of(b"d8:announcei05ee"),
        MetainfoError::Decode(DecodeError::InvalidInteger)
    );
}

#[test]
fn parse_what_is_no_dictionary() {
    assert_eq!(error_of(b"i1e"), schema(Field::Root, Expected::Dictionary));
    assert_eq!(error_of(b"le"), schema(Field::Root, Expected::Dictionary));
}

#[test]
fn parse_missing_announce() {
    let mut bytes = b"d4:info".to_vec();
    bytes.extend(single_file_info());
    bytes.push(b'e');
    assert_eq!(error_of(&bytes), schema(Field::Announce, Expected::Text));
    assert_eq!(error_of(b"de"), schema(Field::Announce, Expected::Text));
}

#[test]
fn parse_announce_of_another_kind() {
    assert_eq!(
        error_of(b"d8:announcei1ee"),
        schema(Field::Announce, Expected::Text)
    );
    assert_eq!(
        error_of(b"d8:announce2:\xff\xfee"),
        schema(Field::Announce, Expected::Text)
    );
}

#[test]
fn parse_missing_info() {
    assert_eq!(
        error_of(b"d8:announce3:urle"),
        schema(Field::Info, Expected::Dictionary)
    );
    assert_eq!(
        error_of(b"d8:announce3:url4:infoi1ee"),
        schema(Field::Info, Expected::Dictionary)
    );
}

#[test]
fn parse_missing_fields_of_info() {
    assert_eq!(
        error_of(b"d8:announce3:url4:infodee"),
        schema(Field::Name, Expected::Text)
    );
    assert_eq!(
        error_of(b"d8:announce3:url4:infod4:name1:nee"),
        schema(Field::PieceLength, Expected::Unsigned)
    );
    assert_eq!(
        error_of(b"d8:announce3:url4:infod4:name1:n12:piece lengthi1eee"),
        schema(Field::Pieces, Expected::ByteString)
    );
}

#[test]
fn parse_fields_of_info_of_another_kind() {
    assert_eq!(
        error_of(b"d8:announce3:url4:infod4:namei1eee"),
        schema(Field::Name, Expected::Text)
    );
    assert_eq!(
        error_of(b"d8:announce3:url4:infod4:name1:n12:piece length1:xee"),
        schema(Field::PieceLength, Expected::Unsigned)
    );
    assert_eq!(
        error_of(b"d8:announce3:url4:infod4:name1:n12:piece lengthi-1eee"),
        schema(Field::PieceLength, Expected::Unsigned)
    );
    assert_eq!(
        error_of(b"d8:announce3:url4:infod4:name1:n12:piece lengthi1e6:piecesleee"),
        schema(Field::Pieces, Expected::ByteString)
    );
}

#[test]
fn parse_neither_length_nor_files() {
    assert_eq!(
        error_of(b"d8:announce3:url4:infod4:name1:n12:piece lengthi1e6:pieces0:ee"),
        schema(Field::Info, Expected::OneLayout)
    );
}

#[test]
fn parse_both_length_and_files() {
    assert_eq!(
        error_of(
            b"d8:announce3:url4:infod5:filesle6:lengthi1e4:name1:n12:piece lengthi1e6:pieces0:ee"
        ),
        schema(Field::Info, Expected::OneLayout)
    );
}

#[test]
fn parse_layout_of_another_kind() {
    assert_eq!(
        error_of(b"d8:announce3:url4:infod6:length1:x4:name1:n12:piece lengthi1e6:pieces0:ee"),
        schema(Field::Length, Expected::Unsigned)
    );
    assert_eq!(
        error_of(b"d8:announce3:url4:infod5:filesi1e4:name1:n12:piece lengthi1e6:pieces0:ee"),
        schema(Field::Files, Expected::List)
    );
    assert_eq!(
        error_of(b"d8:announce3:url4:infod5:filesli1ee4:name1:n12:piece lengthi1e6:pieces0:ee"),
        schema(Field::Files, Expected::Dictionary)
    );
    assert_eq!(
        error_of(
            b"d8:announce3:url4:infod5:filesld4:pathleee4:name1:n12:piece lengthi1e6:pieces0:ee"
        ),
        schema(Field::Length, Expected::Unsigned)
    );
    assert_eq!(
        error_of(
            b"d8:announce3:url4:infod5:filesld6:lengthi1eee4:name1:n12:piece lengthi1e6:pieces0:ee"
        ),
        schema(Field::Path, Expected::List)
    );
    assert_eq!(
        error_of(
            b"d8:announce3:url4:infod5:filesld6:lengthi1e4:pathli1eeee4:name1:n12:piece lengthi1e6:pieces0:ee"
        ),
        schema(Field::Path, Expected::Text)
    );
}

#[test]
fn parse_optional_fields_of_another_kind() {
    let mut head = b"d8:announce3:url7:commenti1e4:info".to_vec();
    head.extend(single_file_info());
    head.push(b'e');
    assert_eq!(error_of(&head), schema(Field::Comment, Expected::Text));
    let mut head = b"d8:announce3:url13:creation date1:x4:info".to_vec();
    head.extend(single_file_info());
    head.push(b'e');
    assert_eq!(error_of(&head), schema(Field::CreationDate, Expected::Integer));
}

#[test]
fn parse_takes_the_first_of_equal_keys() {
    let bytes = b"d8:announce5:first8:announce6:second4:infod6:lengthi1e4:name1:n12:piece lengthi1e6:pieces0:ee";
    assert_eq!(parsed(bytes).unwrap().announce, "first");
}

#[test]
fn info_hash_of_a_single_file() {
    let info = single_file();
    assert_eq!(
        calculate_info_hash(&info),
        Ok("ae3be14155db62e79b4c52b1832961892c5e8cd2".to_string())
    );
    assert_eq!(
        calculate_info_hash_bytes(&info),
        Ok(vec![
            174, 59, 225, 65, 85, 219, 98, 231, 155, 76, 82, 177, 131, 41, 97, 137, 44, 94, 140,
            210
        ])
    );
    assert_eq!(
        calculate_urlencoded_info_hash(&info),
        Ok("%AE%3B%E1AU%DBb%E7%9BLR%B1%83%29a%89%2C%5E%8C%D2".to_string())
    );
}

#[test]
fn info_hash_of_several_files() {
    let torrent = parsed(&torrent_around(&multi_file_info())).unwrap();
    assert_eq!(
        calculate_info_hash(&torrent.info),
        Ok("4420e498dd855ac342db43bdd12900e0225c8802".to_string())
    );
}

#[test]
fn info_hash_is_that_of_the_canonical_bytes() {
    let torrent = parsed(&torrent_around(&single_file_info())).unwrap();
    let value = torrent.info.to_bencode().unwrap();
    assert_eq!(encode(&value), single_file_info());
}

#[test]
fn info_hash_does_not_depend_on_the_order_of_keys() {
    let mut shuffled = b"d6:pieces40:".to_vec();
    shuffled.extend(0u8..40);
    shuffled.extend_from_slice(b"4:name5:a.txt6:lengthi12e12:piece lengthi16384ee");
    assert!(decode_top_level(&shuffled).is_ok());
    let torrent = parsed(&torrent_around(&shuffled)).unwrap();
    assert_eq!(
        calculate_info_hash(&torrent.info),
        Ok("ae3be14155db62e79b4c52b1832961892c5e8cd2".to_string())
    );
}

#[test]
fn info_hash_is_the_same_every_time() {
    let info = single_file();
    assert_eq!(calculate_info_hash_bytes(&info), calculate_info_hash_bytes(&info));
    assert_eq!(
        calculate_info_hash_bytes(&info),
        calculate_info_hash_bytes(&info.clone())
    );
}

#[test]
fn info_hash_of_a_length_that_does_not_fit() {
    let mut info = single_file();
    info.file_tree = FileTree::SingleFile { length: u64::MAX };
    assert_eq!(
        calculate_info_hash(&info),
        Err(schema(Field::Length, Expected::Integer))
    );
    let mut info = single_file();
    info.piece_length = 1 << 63;
    assert_eq!(
        calculate_info_hash_bytes(&info),
        Err(schema(Field::PieceLength, Expected::Integer))
    );
    let mut info = single_file();
    info.file_tree = FileTree::MultiFile {
        files: vec![
            FileInfo { length: 1, path: vec![] },
            FileInfo { length: 1 << 63, path: vec![] },
        ],
    };
    assert_eq!(
        calculate_urlencoded_info_hash(&info),
        Err(schema(Field::Length, Expected::Integer))
    );
}

#[test]
fn info_as_bencode() {
    let info = single_file();
    let expected = BencodeValue::Dictionary(vec![
        (b"length".to_vec(), BencodeValue::Integer(12)),
        (b"name".to_vec(), BencodeValue::ByteString(b"a.txt".to_vec())),
        (b"piece length".to_vec(), BencodeValue::Integer(16384)),
        (b"pieces".to_vec(), BencodeValue::ByteString((0u8..40).collect())),
    ]);
    assert_eq!(info.to_bencode(), Ok(expected));
}

#[test]
fn info_read_back_from_its_bencode() {
    let torrent = parsed(&torrent_around(&multi_file_info())).unwrap();
    let value = torrent.info.to_bencode().unwrap();
    let back = Info::from_bencode(&value).unwrap();
    assert_eq!(back.name, torrent.info.name);
    assert_eq!(back.piece_length, torrent.info.piece_length);
    assert_eq!(back.pieces, torrent.info.pieces);
    assert_eq!(back.file_tree.total_length(), Some(12));
    assert_eq!(encode(&value), multi_file_info());
}

#[test]
fn piece_hashes_are_runs_of_twenty_bytes() {
    let info = single_file();
    let hashes = piece_hashes(&info).unwrap();
    assert_eq!(hashes.len(), 2);
    assert_eq!(hashes[0], (0u8..20).collect::<Vec<u8>>());
    assert_eq!(hashes[1], (20u8..40).collect::<Vec<u8>>());
}

#[test]
fn piece_hashes_in_hexadecimal() {
    let info = single_file();
    assert_eq!(
        get_pieces_hashes(&info),
        Ok(vec![
            "000102030405060708090a0b0c0d0e0f10111213".to_string(),
            "1415161718191a1b1c1d1e1f2021222324252627".to_string(),
        ])
    );
}

#[test]
fn piece_hashes_of_no_pieces() {
    let mut info = single_file();
    info.pieces = vec![];
    assert_eq!(piece_hashes(&info), Ok(vec![]));
    assert_eq!(get_pieces_hashes(&info), Ok(vec![]));
}

#[test]
fn piece_hashes_of_a_length_that_is_no_multiple_of_twenty() {
    let mut info = single_file();
    info.pieces = vec![0; 39];
    assert_eq!(piece_hashes(&info), Err(PiecesError::InvalidLength));
    assert_eq!(get_pieces_hashes(&info), Err(PiecesError::InvalidLength));
    info.pieces = vec![0; 1];
    assert_eq!(piece_hashes(&info), Err(PiecesError::InvalidLength));
    info.pieces = vec![0; 21];
    assert_eq!(get_pieces_hashes(&info), Err(PiecesError::InvalidLength));
}

#[test]
fn hexadecimal_has_high_half_first_and_lower_case() {
    let mut info = single_file();
    info.pieces = vec![
        0xab, 0xcd, 0xef, 0x01, 0x10, 0xff, 0x00, 0x9a, 0xa9, 0x7f, 0x80, 0x0f, 0xf0, 0x12, 0x34,
        0x56, 0x78, 0x9b, 0xbc, 0xde,
    ];
    assert_eq!(
        get_pieces_hashes(&info),
        Ok(vec!["abcdef0110ff009aa97f800ff0123456789bbcde".to_string()])
    );
}

#[test]
fn total_length_of_a_single_file() {
    assert_eq!(FileTree::SingleFile { length: 12 }.total_length(), Some(12));
    assert_eq!(
        FileTree::SingleFile { length: u64::MAX }.total_length(),
        Some(u64::MAX)
    );
}

#[test]
fn total_length_of_several_files() {
    let files = vec![
        FileInfo { length: 5, path: vec!["a".to_string()] },
        FileInfo { length: 0, path: vec!["b".to_string()] },
        FileInfo { length: 7, path: vec!["c".to_string()] },
    ];
    assert_eq!(FileTree::MultiFile { files }.total_length(), Some(12));
    assert_eq!(FileTree::MultiFile { files: vec![] }.total_length(), Some(0));
}

#[test]
fn total_length_that_does_not_fit() {
    let files = vec![
        FileInfo { length: u64::MAX, path: vec![] },
        FileInfo { length: 1, path: vec![] },
    ];
    assert_eq!(FileTree::MultiFile { files }.total_length(), None);
    let files = vec![
        FileInfo { length: u64::MAX - 1, path: vec![] },
        FileInfo { length: 1, path: vec![] },
    ];
    assert_eq!(FileTree::MultiFile { files }.total_length(), Some(u64::MAX));
}

#[test]
fn info_hash_of_a_file_without_other_keys() {
    let bytes = torrent_around(&single_file_info());
    let torrent = parsed(&bytes).unwrap();
    assert_eq!(
        info_hash_of_file(&bytes),
        calculate_info_hash_bytes(&torrent.info)
    );
    assert_eq!(
        to_hex(&info_hash_of_file(&bytes).unwrap()),
        "ae3be14155db62e79b4c52b1832961892c5e8cd2"
    );
}

#[test]
fn info_hash_of_a_file_with_other_keys() {
    let bytes = b"d8:announce3:url4:infod6:lengthi1e4:name1:n12:piece lengthi1e6:pieces0:7:privatei1eee";
    assert_eq!(
        to_hex(&info_hash_of_file(bytes).unwrap()),
        "b359c762c57f7b92c953205af81152afd4ba5c34"
    );
    let torrent = parsed(bytes).unwrap();
    assert_eq!(
        calculate_info_hash(&torrent.info),
        Ok("29b2c99f977a7b89bf00f90867a514fe671ffb55".to_string())
    );
}

#[test]
fn info_hash_of_a_file_with_keys_out_of_order() {
    let bytes = b"d4:infod7:privatei1e6:pieces0:4:name1:n6:lengthi1e12:piece lengthi1ee8:announce3:urle";
    assert_eq!(
        to_hex(&info_hash_of_file(bytes).unwrap()),
        "b359c762c57f7b92c953205af81152afd4ba5c34"
    );
}

#[test]
fn info_hash_of_a_file_without_info() {
    assert_eq!(
        info_hash_of_file(b"d8:announce3:urle"),
        Err(schema(Field::Info, Expected::Dictionary))
    );
    assert_eq!(
        info_hash_of_file(b"d4:infoi1ee"),
        Err(schema(Field::Info, Expected::Dictionary))
    );
    assert_eq!(
        info_hash_of_file(b"le"),
        Err(schema(Field::Root, Expected::Dictionary))
    );
    assert_eq!(
        info_hash_of_file(b"d4:info"),
        Err(MetainfoError::Decode(DecodeError::UnterminatedDict))
    );
}

#[test]
fn piece_lengths_that_the_protocol_allows() {
    let mut info = single_file();
    for n in [16384u64, 32768, 262144, 1 << 20, 1 << 40, 1 << 63] {
        info.piece_length = n;
        assert!(info.has_valid_piece_length());
    }
}

#[test]
fn piece_lengths_that_the_protocol_does_not_allow() {
    let mut info = single_file();
    for n in [0u64, 1, 2, 8192, 16383, 16385, 24576, 49152, 1000000, u64::MAX, (1 << 20) + 1] {
        info.piece_length = n;
        assert!(!info.has_valid_piece_length());
    }
}
