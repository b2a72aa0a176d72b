//! Reading typed fields out of a decoded dictionary: which key, which kind
//! of value, and what is reported where the value is missing or of
//! another kind.

use crate::text::{text_from_bytes, text_of};
use crate::value::{dict_view, Bencode, BencodeValue};
use vstd::prelude::*;
use vstd::utf8::encode_utf8;

verus! {

/// A field of the torrent file or of the tracker's response.
#[derive(Debug, Clone, Copy, PartialEq, Eq, Structural)]
pub enum Field {
    /// The outermost value itself.
    Root,
    /// `announce`: the tracker's URL.
    Announce,
    /// `info`: the dictionary that the info hash is taken of.
    Info,
    /// `name` in `info`.
    Name,
    /// `piece length` in `info`.
    PieceLength,
    /// `pieces` in `info`.
    Pieces,
    /// `length`, in `info` or in an entry of `files`.
    Length,
    /// `files` in `info`, or one of its entries.
    Files,
    /// `path` in an entry of `files`, or one of its components.
    Path,
    /// `comment`.
    Comment,
    /// `created by`.
    CreatedBy,
    /// `creation date`.
    CreationDate,
    /// `encoding`.
    Encoding,
    /// `interval` in the tracker's response.
    Interval,
    /// `min interval` in the tracker's response.
    MinInterval,
    /// `peers` in the tracker's response.
    Peers,
}

/// What a field has to hold.
#[derive(Debug, Clone, Copy, PartialEq, Eq, Structural)]
pub enum Expected {
    /// An integer.
    Integer,
    /// An integer that is not negative.
    Unsigned,
    /// A byte string.
    ByteString,
    /// A byte string that is UTF-8 text.
    Text,
    /// A list.
    List,
    /// A dictionary.
    Dictionary,
    /// Exactly one of `length` and `files`.
    OneLayout,
}

/// A field that is missing where it is required, or that holds another
/// kind of value than it has to.
#[derive(Debug, Clone, Copy, PartialEq, Eq, Structural)]
pub struct SchemaError {
    /// The field.
    pub field: Field,
    /// What it has to hold.
    pub expected: Expected,
}

impl Field {
    /// The field's key as text; for `Root`, which has none, the empty text.
    pub open spec fn text(self) -> Seq<char> {
        match self {
            Field::Root => ""@,
            Field::Announce => "announce"@,
            Field::Info => "info"@,
            Field::Name => "name"@,
            Field::PieceLength => "piece length"@,
            Field::Pieces => "pieces"@,
            Field::Length => "length"@,
            Field::Files => "files"@,
            Field::Path => "path"@,
            Field::Comment => "comment"@,
            Field::CreatedBy => "created by"@,
            Field::CreationDate => "creation date"@,
            Field::Encoding => "encoding"@,
            Field::Interval => "interval"@,
            Field::MinInterval => "min interval"@,
            Field::Peers => "peers"@,
        }
    }

    /// The field's key as the bytes that a dictionary holds.
    pub open spec fn key(self) -> Seq<u8> {
        encode_utf8(self.text())
    }

    /// The field's key as text.
    pub fn name(&self) -> (s: &'static str)
        ensures
            s@ == self.text(),
    {
        match self {
            Field::Root => "",
            Field::Announce => "announce",
            Field::Info => "info",
            Field::Name => "name",
            Field::PieceLength => "piece length",
            Field::Pieces => "pieces",
            Field::Length => "length",
            Field::Files => "files",
            Field::Path => "path",
            Field::Comment => "comment",
            Field::CreatedBy => "created by",
            Field::CreationDate => "creation date",
            Field::Encoding => "encoding",
            Field::Interval => "interval",
            Field::MinInterval => "min interval",
            Field::Peers => "peers",
        }
    }
}

/// The error that says `field` has to hold `expected`.
pub open spec fn mismatch(field: Field, expected: Expected) -> SchemaError {
    SchemaError { field, expected }
}

/// The value of the first entry whose key is `key`.
pub open spec fn lookup(entries: Seq<(Seq<u8>, Bencode)>, key: Seq<u8>) -> Option<Bencode>
    decreases entries.len(),
{
    if entries.len() == 0 {
        None
    } else if entries[0].0 == key {
        Some(entries[0].1)
    } else {
        lookup(entries.drop_first(), key)
    }
}

/// The text of a required field.
pub open spec fn text_field(entries: Seq<(Seq<u8>, Bencode)>, field: Field) -> Result<
    Seq<char>,
    SchemaError,
> {
    match lookup(entries, field.key()) {
        Some(Bencode::Bytes(b)) => match text_of(b) {
            Some(t) => Ok(t),
            None => Err(mismatch(field, Expected::Text)),
        },
        _ => Err(mismatch(field, Expected::Text)),
    }
}

/// The text of a field that may be absent.
pub open spec fn optional_text_field(entries: Seq<(Seq<u8>, Bencode)>, field: Field) -> Result<
    Option<Seq<char>>,
    SchemaError,
> {
    match lookup(entries, field.key()) {
        None => Ok(None),
        Some(Bencode::Bytes(b)) => match text_of(b) {
            Some(t) => Ok(Some(t)),
            None => Err(mismatch(field, Expected::Text)),
        },
        Some(_) => Err(mismatch(field, Expected::Text)),
    }
}

/// The bytes of a required field.
pub open spec fn bytes_field(entries: Seq<(Seq<u8>, Bencode)>, field: Field) -> Result<
    Seq<u8>,
    SchemaError,
> {
    match lookup(entries, field.key()) {
        Some(Bencode::Bytes(b)) => Ok(b),
        _ => Err(mismatch(field, Expected::ByteString)),
    }
}

/// The number in a value that has to be an integer and not negative.
pub open spec fn unsigned_of(v: Bencode, field: Field) -> Result<u64, SchemaError> {
    match v {
        Bencode::Integer(i) => if i >= 0 {
            Ok(i as u64)
        } else {
            Err(mismatch(field, Expected::Unsigned))
        },
        _ => Err(mismatch(field, Expected::Unsigned)),
    }
}

/// The number of a required field that has to be an integer and not
/// negative.
pub open spec fn unsigned_field(entries: Seq<(Seq<u8>, Bencode)>, field: Field) -> Result<
    u64,
    SchemaError,
> {
    match lookup(entries, field.key()) {
        Some(v) => unsigned_of(v, field),
        None => Err(mismatch(field, Expected::Unsigned)),
    }
}

/// The number of a field that may be absent, and that has to be an integer
/// and not negative where it is there.
pub open spec fn optional_unsigned_field(
    entries: Seq<(Seq<u8>, Bencode)>,
    field: Field,
) -> Result<Option<u64>, SchemaError> {
    match lookup(entries, field.key()) {
        None => Ok(None),
        Some(v) => match unsigned_of(v, field) {
            Ok(n) => Ok(Some(n)),
            Err(e) => Err(e),
        },
    }
}

/// The integer of a field that may be absent.
pub open spec fn optional_integer_field(
    entries: Seq<(Seq<u8>, Bencode)>,
    field: Field,
) -> Result<Option<i64>, SchemaError> {
    match lookup(entries, field.key()) {
        None => Ok(None),
        Some(Bencode::Integer(i)) => Ok(Some(i)),
        Some(_) => Err(mismatch(field, Expected::Integer)),
    }
}

/// `rest` with `before` put in front of what it holds.
pub open spec fn after<T, E>(before: Seq<T>, rest: Result<Seq<T>, E>) -> Result<Seq<T>, E> {
    match rest {
        Ok(items) => Ok(before + items),
        Err(e) => Err(e),
    }
}

/// Putting one item and then a prefix in front is putting the prefix with
/// that item behind it in front.
pub proof fn lemma_after_push<T, E>(before: Seq<T>, first: T, rest: Result<Seq<T>, E>)
    ensures
        after(before, after(seq![first], rest)) == after(before.push(first), rest),
{
    match rest {
        Ok(items) => {
            assert(before + (seq![first] + items) =~= before.push(first) + items);
        },
        Err(e) => {},
    }
}

/// Nothing put in front changes nothing.
pub proof fn lemma_after_nothing<T, E>(rest: Result<Seq<T>, E>)
    ensures
        after(Seq::<T>::empty(), rest) == rest,
{
    match rest {
        Ok(items) => {
            assert(Seq::<T>::empty() + items =~= items);
        },
        Err(e) => {},
    }
}

/// Whether two byte strings are the same.
pub fn same_bytes(a: &[u8], b: &[u8]) -> (same: bool)
    ensures
        same == (a@ == b@),
{
    if a.len() != b.len() {
        return false;
    }
    let mut i: usize = 0;
    while i < a.len()
        invariant
            i <= a@.len(),
            a@.len() == b@.len(),
            forall|k: int| 0 <= k < i ==> a@[k] == b@[k],
        decreases a@.len() - i,
    {
        if a[i] != b[i] {
            return false;
        }
        i += 1;
    }
    assert(a@ =~= b@);
    true
}

/// The value of the first entry whose key is that of `field`.
pub fn find<'a>(entries: &'a Vec<(Vec<u8>, BencodeValue)>, field: Field) -> (r: Option<
    &'a BencodeValue,
>)
    ensures
        match r {
            Some(v) => lookup(dict_view(entries@), field.key()) == Some(v@),
            None => lookup(dict_view(entries@), field.key()) is None,
        },
{
    let key = field.name().as_bytes();
    let ghost all = dict_view(entries@);
    let mut i: usize = 0;
    assert(all.skip(0) =~= all);
    while i < entries.len()
        invariant
            i <= entries@.len(),
            all == dict_view(entries@),
            key@ == field.key(),
            lookup(all, field.key()) == lookup(all.skip(i as int), field.key()),
        decreases entries@.len() - i,
    {
        proof {
            let rest = all.skip(i as int);
            assert(rest[0] == all[i as int]);
            assert(rest.drop_first() =~= all.skip(i + 1));
        }
        if same_bytes(entries[i].0.as_slice(), key) {
            return Some(&entries[i].1);
        }
        i += 1;
    }
    None
}

/// The text of a required field.
pub fn required_text(entries: &Vec<(Vec<u8>, BencodeValue)>, field: Field) -> (r: Result<
    String,
    SchemaError,
>)
    ensures
        match r {
            Ok(s) => text_field(dict_view(entries@), field) == Ok::<Seq<char>, SchemaError>(s@),
            Err(e) => text_field(dict_view(entries@), field) == Err::<Seq<char>, SchemaError>(e),
        },
{
    match find(entries, field) {
        Some(BencodeValue::ByteString(b)) => match text_from_bytes(b.as_slice()) {
            Some(s) => Ok(s),
            None => Err(SchemaError { field, expected: Expected::Text }),
        },
        _ => Err(SchemaError { field, expected: Expected::Text }),
    }
}

/// The text of a field that may be absent.
pub fn optional_text(entries: &Vec<(Vec<u8>, BencodeValue)>, field: Field) -> (r: Result<
    Option<String>,
    SchemaError,
>)
    ensures
        match r {
            Ok(Some(s)) => optional_text_field(dict_view(entries@), field) == Ok::<
                Option<Seq<char>>,
                SchemaError,
            >(Some(s@)),
            Ok(None) => optional_text_field(dict_view(entries@), field) == Ok::<
                Option<Seq<char>>,
                SchemaError,
            >(None),
            Err(e) => optional_text_field(dict_view(entries@), field) == Err::<
                Option<Seq<char>>,
                SchemaError,
            >(e),
        },
{
    match find(entries, field) {
        None => Ok(None),
        Some(BencodeValue::ByteString(b)) => match text_from_bytes(b.as_slice()) {
            Some(s) => Ok(Some(s)),
            None => Err(SchemaError { field, expected: Expected::Text }),
        },
        Some(_) => Err(SchemaError { field, expected: Expected::Text }),
    }
}

/// The bytes of a required field.
pub fn required_bytes(entries: &Vec<(Vec<u8>, BencodeValue)>, field: Field) -> (r: Result<
    Vec<u8>,
    SchemaError,
>)
    ensures
        match r {
            Ok(b) => bytes_field(dict_view(entries@), field) == Ok::<Seq<u8>, SchemaError>(b@),
            Err(e) => bytes_field(dict_view(entries@), field) == Err::<Seq<u8>, SchemaError>(e),
        },
{
    match find(entries, field) {
        Some(BencodeValue::ByteString(b)) => Ok(vstd::slice::slice_to_vec(b.as_slice())),
        _ => Err(SchemaError { field, expected: Expected::ByteString }),
    }
}

/// The number in a value that has to be an integer and not negative.
pub fn unsigned_value(value: &BencodeValue, field: Field) -> (r: Result<u64, SchemaError>)
    ensures
        r == unsigned_of(value@, field),
{
    match value {
        BencodeValue::Integer(i) => if *i >= 0 {
            Ok(*i as u64)
        } else {
            Err(SchemaError { field, expected: Expected::Unsigned })
        },
        _ => Err(SchemaError { field, expected: Expected::Unsigned }),
    }
}

/// The number of a required field that has to be an integer and not
/// negative.
pub fn required_unsigned(entries: &Vec<(Vec<u8>, BencodeValue)>, field: Field) -> (r: Result<
    u64,
    SchemaError,
>)
    ensures
        r == unsigned_field(dict_view(entries@), field),
{
    match find(entries, field) {
        Some(v) => unsigned_value(v, field),
        None => Err(SchemaError { field, expected: Expected::Unsigned }),
    }
}

/// The number of a field that may be absent.
pub fn optional_unsigned(entries: &Vec<(Vec<u8>, BencodeValue)>, field: Field) -> (r: Result<
    Option<u64>,
    SchemaError,
>)
    ensures
        r == optional_unsigned_field(dict_view(entries@), field),
{
    match find(entries, field) {
        None => Ok(None),
        Some(v) => match unsigned_value(v, field) {
            Ok(n) => Ok(Some(n)),
            Err(e) => Err(e),
        },
    }
}

/// The integer of a field that may be absent.
pub fn optional_integer(entries: &Vec<(Vec<u8>, BencodeValue)>, field: Field) -> (r: Result<
    Option<i64>,
    SchemaError,
>)
    ensures
        r == optional_integer_field(dict_view(entries@), field),
{
    match find(entries, field) {
        None => Ok(None),
        Some(BencodeValue::Integer(i)) => Ok(Some(*i)),
        Some(_) => Err(SchemaError { field, expected: Expected::Integer }),
    }
}

} // verus!
