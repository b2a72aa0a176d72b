use bt_protocol::codec::{decode_one, decode_one_bounded, decode_top_level, encode};
use bt_protocol::grammar::DecodeError;
use bt_protocol::value::BencodeValue;

fn text(s: &str) -> BencodeValue {
    BencodeValue::ByteString(s.as_bytes().to_vec())
}

fn entry(key: &str, value: BencodeValue) -> (Vec<u8>, BencodeValue) {
    (key.as_bytes().to_vec(), value)
}

#[test]
fn integer_zero() {
    assert_eq!(decode_top_level(b"i0e"), Ok(BencodeValue::Integer(0)));
}

#[test]
fn integer_negative() {
    assert_eq!(decode_top_level(b"i-69e"), Ok(BencodeValue::Integer(-69)));
}

#[test]
fn integer_negative_zero_is_refused() {
    assert_eq!(decode_top_level(b"i-0e"), Err(DecodeError::InvalidInteger));
}

#[test]
fn integer_leading_zero_is_refused() {
    assert_eq!(decode_top_level(b"i05e"), Err(DecodeError::InvalidInteger));
    assert_eq!(decode_top_level(b"i00e"), Err(DecodeError::InvalidInteger));
    assert_eq!(decode_top_level(b"i-05e"), Err(DecodeError::InvalidInteger));
}

#[test]
fn integer_limits() {
    assert_eq!(
        decode_top_level(b"i9223372036854775807e"),
        Ok(BencodeValue::Integer(i64::MAX))
    );
    assert_eq!(
        decode_top_level(b"i-9223372036854775808e"),
        Ok(BencodeValue::Integer(i64::MIN))
    );
    assert_eq!(
        decode_top_level(b"i9223372036854775808e"),
        Err(DecodeError::InvalidInteger)
    );
    assert_eq!(
        decode_top_level(b"i-9223372036854775809e"),
        Err(DecodeError::InvalidInteger)
    );
    assert_eq!(
        decode_top_level(b"i99999999999999999999999999e"),
        Err(DecodeError::InvalidInteger)
    );
}

#[test]
fn integer_malformed() {
    assert_eq!(decode_top_level(b"ie"), Err(DecodeError::InvalidInteger));
    assert_eq!(decode_top_level(b"i-e"), Err(DecodeError::InvalidInteger));
    assert_eq!(decode_top_level(b"i12"), Err(DecodeError::InvalidInteger));
    assert_eq!(decode_top_level(b"i"), Err(DecodeError::InvalidInteger));
    assert_eq!(decode_top_level(b"i1x2e"), Err(DecodeError::InvalidInteger));
    assert_eq!(decode_top_level(b"i+5e"), Err(DecodeError::InvalidInteger));
    assert_eq!(decode_top_level(b"i--5e"), Err(DecodeError::InvalidInteger));
    assert_eq!(decode_top_level(b"i 5e"), Err(DecodeError::InvalidInteger));
}

#[test]
fn byte_string() {
    assert_eq!(decode_top_level(b"5:hello"), Ok(text("hello")));
    assert_eq!(decode_top_level(b"0:"), Ok(text("")));
}

#[test]
fn byte_string_leaves_the_rest_alone() {
    assert_eq!(
        decode_one(b"9:iloverustandneovim", 0),
        Ok((text("iloverust"), 11))
    );
}

#[test]
fn byte_string_holds_any_bytes() {
    assert_eq!(
        decode_top_level(b"4:\x00\xff:e"),
        Ok(BencodeValue::ByteString(vec![0, 255, b':', b'e']))
    );
}

#[test]
fn byte_string_length_may_have_leading_zeros() {
    assert_eq!(decode_one(b"05:hello", 0), Ok((text("hello"), 8)));
}

#[test]
fn byte_string_without_colon() {
    assert_eq!(decode_top_level(b"5hello"), Err(DecodeError::MissingColon));
    assert_eq!(decode_top_level(b"5"), Err(DecodeError::MissingColon));
    assert_eq!(decode_top_level(b"12"), Err(DecodeError::MissingColon));
}

#[test]
fn byte_string_longer_than_the_input() {
    assert_eq!(decode_top_level(b"9:abc"), Err(DecodeError::InvalidLength));
    assert_eq!(decode_top_level(b"1:"), Err(DecodeError::InvalidLength));
    assert_eq!(
        decode_top_level(b"99999999999999999999999999999999:abc"),
        Err(DecodeError::InvalidLength)
    );
}

#[test]
fn empty_list() {
    assert_eq!(decode_top_level(b"le"), Ok(BencodeValue::List(vec![])));
}

#[test]
fn list_of_strings() {
    assert_eq!(
        decode_top_level(b"l4:spam4:eggse"),
        Ok(BencodeValue::List(vec![text("spam"), text("eggs")]))
    );
}

#[test]
fn list_without_end() {
    assert_eq!(
        decode_top_level(b"l4:spam4:eggs"),
        Err(DecodeError::UnterminatedList)
    );
    assert_eq!(decode_top_level(b"l"), Err(DecodeError::UnterminatedList));
    assert_eq!(decode_top_level(b"lle"), Err(DecodeError::UnterminatedList));
}

#[test]
fn dictionary() {
    assert_eq!(
        decode_top_level(b"d3:foo3:bar5:helloi52ee"),
        Ok(BencodeValue::Dictionary(vec![
            entry("foo", text("bar")),
            entry("hello", BencodeValue::Integer(52)),
        ]))
    );
    assert_eq!(decode_top_level(b"de"), Ok(BencodeValue::Dictionary(vec![])));
}

#[test]
fn dictionary_without_end() {
    assert_eq!(decode_top_level(b"d"), Err(DecodeError::UnterminatedDict));
    assert_eq!(
        decode_top_level(b"d3:foo"),
        Err(DecodeError::UnterminatedDict)
    );
    assert_eq!(
        decode_top_level(b"d3:foo3:bar"),
        Err(DecodeError::UnterminatedDict)
    );
}

#[test]
fn dictionary_key_that_is_no_string() {
    assert_eq!(
        decode_top_level(b"di1ei2ee"),
        Err(DecodeError::NonStringKey)
    );
    assert_eq!(decode_top_level(b"dlei2ee"), Err(DecodeError::NonStringKey));
    assert_eq!(decode_top_level(b"dxe"), Err(DecodeError::NonStringKey));
}

#[test]
fn dictionary_key_without_value() {
    assert_eq!(decode_top_level(b"d3:fooe"), Err(DecodeError::InvalidPrefix));
}

#[test]
fn dictionary_keeps_the_order_it_is_read_in() {
    assert_eq!(
        decode_top_level(b"d1:bi1e1:ai2ee"),
        Ok(BencodeValue::Dictionary(vec![
            entry("b", BencodeValue::Integer(1)),
            entry("a", BencodeValue::Integer(2)),
        ]))
    );
}

#[test]
fn invalid_prefix() {
    assert_eq!(decode_top_level(b"x"), Err(DecodeError::InvalidPrefix));
    assert_eq!(decode_top_level(b""), Err(DecodeError::InvalidPrefix));
    assert_eq!(decode_top_level(b"e"), Err(DecodeError::InvalidPrefix));
    assert_eq!(decode_top_level(b"-5"), Err(DecodeError::InvalidPrefix));
    assert_eq!(decode_one(b"i1e", 3), Err(DecodeError::InvalidPrefix));
    assert_eq!(decode_one(b"i1e", 100), Err(DecodeError::InvalidPrefix));
}

#[test]
fn first_error_from_the_left_is_reported() {
    assert_eq!(decode_top_level(b"li05e"), Err(DecodeError::InvalidInteger));
    assert_eq!(decode_top_level(b"l5:abe"), Err(DecodeError::InvalidLength));
    assert_eq!(
        decode_top_level(b"d1:al1:b"),
        Err(DecodeError::UnterminatedList)
    );
}

#[test]
fn decode_at_an_offset() {
    let bytes = b"i1e4:spamli2ee";
    assert_eq!(decode_one(bytes, 0), Ok((BencodeValue::Integer(1), 3)));
    assert_eq!(decode_one(bytes, 3), Ok((text("spam"), 6)));
    assert_eq!(
        decode_one(bytes, 9),
        Ok((BencodeValue::List(vec![BencodeValue::Integer(2)]), 5))
    );
}

#[test]
fn top_level_passes_over_what_follows() {
    assert_eq!(
        decode_top_level(b"i7egarbage"),
        Ok(BencodeValue::Integer(7))
    );
}

#[test]
fn nesting_within_the_limit() {
    let nested = BencodeValue::List(vec![BencodeValue::List(vec![BencodeValue::List(vec![])])]);
    assert_eq!(decode_one_bounded(b"llleee", 0, 3), Ok((nested, 6)));
    assert_eq!(
        decode_one_bounded(b"i5e", 0, 0),
        Ok((BencodeValue::Integer(5), 3))
    );
}

#[test]
fn nesting_beyond_the_limit() {
    assert_eq!(
        decode_one_bounded(b"llleee", 0, 2),
        Err(DecodeError::NestingTooDeep)
    );
    assert_eq!(
        decode_one_bounded(b"le", 0, 0),
        Err(DecodeError::NestingTooDeep)
    );
    assert_eq!(
        decode_one_bounded(b"d1:ad1:bdeee", 0, 2),
        Err(DecodeError::NestingTooDeep)
    );
    assert_eq!(
        decode_one_bounded(b"lx", 0, 0),
        Err(DecodeError::NestingTooDeep)
    );
    assert_eq!(
        decode_one_bounded(b"lx", 0, 1),
        Err(DecodeError::InvalidPrefix)
    );
}

#[test]
fn deep_nesting_without_a_limit() {
    let mut bytes = vec![b'l'; 200];
    bytes.extend(vec![b'e'; 200]);
    let (value, consumed) = decode_one(&bytes, 0).unwrap();
    assert_eq!(consumed, 400);
    assert_eq!(encode(&value), bytes);
    assert_eq!(
        decode_one_bounded(&bytes, 0, 199),
        Err(DecodeError::NestingTooDeep)
    );
    assert!(decode_one_bounded(&bytes, 0, 200).is_ok());
}

#[test]
fn encode_integers() {
    assert_eq!(encode(&BencodeValue::Integer(0)), b"i0e".to_vec());
    assert_eq!(encode(&BencodeValue::Integer(-69)), b"i-69e".to_vec());
    assert_eq!(encode(&BencodeValue::Integer(1234567890)), b"i1234567890e".to_vec());
    assert_eq!(
        encode(&BencodeValue::Integer(i64::MIN)),
        b"i-9223372036854775808e".to_vec()
    );
    assert_eq!(
        encode(&BencodeValue::Integer(i64::MAX)),
        b"i9223372036854775807e".to_vec()
    );
}

#[test]
fn encode_strings_and_lists() {
    assert_eq!(encode(&text("hello")), b"5:hello".to_vec());
    assert_eq!(encode(&text("")), b"0:".to_vec());
    assert_eq!(encode(&text("0123456789ab")), b"12:0123456789ab".to_vec());
    assert_eq!(
        encode(&BencodeValue::List(vec![text("spam"), text("eggs")])),
        b"l4:spam4:eggse".to_vec()
    );
    assert_eq!(encode(&BencodeValue::List(vec![])), b"le".to_vec());
}

#[test]
fn encode_sorts_the_keys() {
    let built = BencodeValue::Dictionary(vec![
        entry("hello", BencodeValue::Integer(52)),
        entry("foo", text("bar")),
    ]);
    assert_eq!(encode(&built), b"d3:foo3:bar5:helloi52ee".to_vec());
}

#[test]
fn encode_sorts_keys_as_raw_bytes() {
    let built = BencodeValue::Dictionary(vec![
        entry("b", BencodeValue::Integer(1)),
        entry("ab", BencodeValue::Integer(2)),
        entry("B", BencodeValue::Integer(3)),
        entry("", BencodeValue::Integer(4)),
        entry("a", BencodeValue::Integer(5)),
        (vec![0xff], BencodeValue::Integer(6)),
    ]);
    assert_eq!(
        encode(&built),
        b"d0:i4e1:Bi3e1:ai5e2:abi2e1:bi1e1:\xffi6ee".to_vec()
    );
}

#[test]
fn encode_sorts_at_every_depth() {
    let inner = BencodeValue::Dictionary(vec![
        entry("z", BencodeValue::Integer(1)),
        entry("y", BencodeValue::Integer(2)),
    ]);
    let built = BencodeValue::Dictionary(vec![
        entry("list", BencodeValue::List(vec![inner])),
        entry("a", BencodeValue::Integer(0)),
    ]);
    assert_eq!(
        encode(&built),
        b"d1:ai0e4:listld1:yi2e1:zi1eeee".to_vec()
    );
}

#[test]
fn encode_keeps_equal_keys_in_their_order() {
    let built = BencodeValue::Dictionary(vec![
        entry("k", BencodeValue::Integer(1)),
        entry("a", BencodeValue::Integer(2)),
        entry("k", BencodeValue::Integer(3)),
    ]);
    assert_eq!(encode(&built), b"d1:ai2e1:ki1e1:ki3ee".to_vec());
}

#[test]
fn order_of_building_does_not_show() {
    let one = BencodeValue::Dictionary(vec![
        entry("name", text("x")),
        entry("length", BencodeValue::Integer(1)),
        entry("pieces", text("")),
    ]);
    let other = BencodeValue::Dictionary(vec![
        entry("pieces", text("")),
        entry("name", text("x")),
        entry("length", BencodeValue::Integer(1)),
    ]);
    assert_eq!(encode(&one), encode(&other));
}

#[test]
fn decode_inverts_encode() {
    let value = BencodeValue::Dictionary(vec![
        entry("a", BencodeValue::List(vec![
            BencodeValue::Integer(-1),
            text("two"),
            BencodeValue::Dictionary(vec![]),
        ])),
        entry("b", BencodeValue::Integer(i64::MIN)),
        entry("c", BencodeValue::Dictionary(vec![
            entry("x", BencodeValue::ByteString(vec![0, 1, 2, 255])),
            entry("y", BencodeValue::List(vec![])),
        ])),
    ]);
    let bytes = encode(&value);
    let len = bytes.len();
    assert_eq!(decode_one(&bytes, 0), Ok((value, len)));
}

#[test]
fn decode_inverts_encode_with_bytes_behind() {
    let value = BencodeValue::List(vec![text("e"), BencodeValue::Integer(10)]);
    let mut bytes = encode(&value);
    let len = bytes.len();
    bytes.extend_from_slice(b"i3e");
    assert_eq!(decode_one(&bytes, 0), Ok((value, len)));
}

#[test]
fn decoding_what_was_encoded_gives_the_sorted_value() {
    let built = BencodeValue::Dictionary(vec![
        entry("b", BencodeValue::Integer(1)),
        entry("a", BencodeValue::Integer(2)),
    ]);
    let sorted = BencodeValue::Dictionary(vec![
        entry("a", BencodeValue::Integer(2)),
        entry("b", BencodeValue::Integer(1)),
    ]);
    assert_eq!(decode_top_level(&encode(&built)), Ok(sorted));
}

#[test]
fn a_copy_is_equal() {
    let value = BencodeValue::Dictionary(vec![
        entry("list", BencodeValue::List(vec![BencodeValue::Integer(1), text("x")])),
        entry("n", BencodeValue::Integer(-7)),
        entry("d", BencodeValue::Dictionary(vec![entry("k", text(""))])),
    ]);
    let copy = value.clone();
    assert_eq!(copy, value);
    assert_eq!(encode(&copy), encode(&value));
}

#[test]
fn canonical_values() {
    assert!(BencodeValue::Integer(1).is_canonical());
    assert!(text("x").is_canonical());
    assert!(BencodeValue::List(vec![]).is_canonical());
    assert!(BencodeValue::Dictionary(vec![]).is_canonical());
    assert!(BencodeValue::Dictionary(vec![entry("a", text("x"))]).is_canonical());
    assert!(decode_top_level(b"d1:ad1:bi1e1:ci2ee1:bli1eee").unwrap().is_canonical());
}

#[test]
fn values_that_are_not_canonical() {
    assert!(!decode_top_level(b"d1:bi1e1:ai2ee").unwrap().is_canonical());
    assert!(!decode_top_level(b"d1:ai1e1:ai2ee").unwrap().is_canonical());
    assert!(!decode_top_level(b"ld1:bi1e1:ai2eee").unwrap().is_canonical());
    assert!(!decode_top_level(b"d1:ad1:ci1e1:bi2eee").unwrap().is_canonical());
    assert!(!decode_top_level(b"d1:ai1e2:aai2e1:bi3e2:abi4ee").unwrap().is_canonical());
}
