use bt_protocol::codec::{decode_top_level, encode};
use bt_protocol::value::BencodeValue;
use serde_bencode::value::Value;
use std::collections::HashMap;

fn ours(value: &Value) -> BencodeValue {
    match value {
        Value::Int(i) => BencodeValue::Integer(*i),
        Value::Bytes(b) => BencodeValue::ByteString(b.clone()),
        Value::List(items) => BencodeValue::List(items.iter().map(ours).collect()),
        Value::Dict(entries) => BencodeValue::Dictionary(
            entries.iter().map(|(k, v)| (k.clone(), ours(v))).collect(),
        ),
    }
}

fn theirs(value: &BencodeValue) -> Value {
    match value {
        BencodeValue::Integer(i) => Value::Int(*i),
        BencodeValue::ByteString(b) => Value::Bytes(b.clone()),
        BencodeValue::List(items) => Value::List(items.iter().map(theirs).collect()),
        BencodeValue::Dictionary(entries) => Value::Dict(
            entries.iter().map(|(k, v)| (k.clone(), theirs(v))).collect(),
        ),
    }
}

fn sample() -> Value {
    let mut file = HashMap::new();
    file.insert(b"length".to_vec(), Value::Int(5));
    file.insert(
        b"path".to_vec(),
        Value::List(vec![Value::Bytes(b"a".to_vec()), Value::Bytes(b"b.txt".to_vec())]),
    );
    let mut info = HashMap::new();
    info.insert(b"piece length".to_vec(), Value::Int(16384));
    info.insert(b"pieces".to_vec(), Value::Bytes((0u8..20).collect()));
    info.insert(b"name".to_vec(), Value::Bytes(b"dir".to_vec()));
    info.insert(b"files".to_vec(), Value::List(vec![Value::Dict(file)]));
    info.insert(b"private".to_vec(), Value::Int(-1));
    Value::Dict(info)
}

#[test]
fn encodes_as_serde_bencode_does() {
    let value = sample();
    assert_eq!(encode(&ours(&value)), serde_bencode::to_bytes(&value).unwrap());
}

#[test]
fn decodes_what_serde_bencode_wrote() {
    let value = sample();
    let bytes = serde_bencode::to_bytes(&value).unwrap();
    let decoded = decode_top_level(&bytes).unwrap();
    assert_eq!(theirs(&decoded), value);
}

#[test]
fn serde_bencode_decodes_what_was_encoded() {
    let value = sample();
    let bytes = encode(&ours(&value));
    let back: Value = serde_bencode::from_bytes(&bytes).unwrap();
    assert_eq!(back, value);
}
