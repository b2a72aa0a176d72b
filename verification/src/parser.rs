//! Metainfo files, also known as .torrent files: the typed model of what
//! they hold, read from a decoded dictionary.

use crate::codec::{decode_top_level, encode};
use crate::digest::{hex_text, sha1_digest, sha1_of, to_hex, DIGEST_LEN};
use crate::grammar::{encode_value, parse_unbounded, DecodeError};
use crate::schema::{
    after, bytes_field, find, lemma_after_nothing, lemma_after_push, lookup, mismatch,
    optional_integer, optional_integer_field, optional_text, optional_text_field, required_bytes,
    required_text, required_unsigned, text_field, unsigned_field, unsigned_of, unsigned_value,
    Expected, Field, SchemaError,
};
use crate::text::{ascii_string, ascii_text, string_bytes, text_from_bytes, text_of};
use crate::urlencode::{lemma_percent_encoded_is_ascii, percent_encode, percent_encoded};
use crate::value::{dict_view, list_view, Bencode, BencodeValue};
use vstd::arithmetic::power2::is_pow2;
use vstd::prelude::*;
use vstd::slice::{slice_subrange, slice_to_vec};
use vstd::utf8::encode_utf8;

verus! {

/// Why bytes are no metainfo file.
#[derive(Debug, Clone, Copy, PartialEq, Eq, Structural)]
pub enum MetainfoError {
    /// The bytes are not bencode.
    Decode(DecodeError),
    /// A required field is missing, or a field holds another kind of value
    /// than it has to.
    Schema(SchemaError),
}

/// A metainfo file.
#[derive(Debug, Clone)]
pub struct Torrent {
    /// The URL of the tracker.
    pub announce: String,
    /// What is shared, and how it is cut into pieces.
    pub info: Info,
    /// A free-form comment.
    pub comment: Option<String>,
    /// The program that wrote the file.
    pub created_by: Option<String>,
    /// When the file was written, in seconds since the epoch.
    pub creation_date: Option<i64>,
    /// The encoding of the strings in `info`.
    pub encoding: Option<String>,
}

/// The dictionary that identifies a torrent: its hash is the info hash.
#[derive(Debug, Clone)]
pub struct Info {
    /// A display name for the torrent. It is purely advisory.
    pub name: String,
    /// The number of bytes in each piece. The protocol wants a power of
    /// two of at least 16 KiB; reading a file does not check that.
    pub piece_length: u64,
    /// The SHA-1 hashes of the pieces, 20 bytes each, one after another.
    pub pieces: Vec<u8>,
    /// One file, or several in a directory.
    pub file_tree: FileTree,
}

/// What a torrent holds: one file, or a set of files.
#[derive(Debug, Clone)]
pub enum FileTree {
    /// A single file, named by `Info::name`.
    SingleFile {
        /// Length of the file in bytes.
        length: u64,
    },
    /// A set of files that go in a directory named by `Info::name`.
    MultiFile {
        /// The files, in the order in which pieces run through them.
        files: Vec<FileInfo>,
    },
}

/// One file of several.
#[derive(Debug, Clone)]
pub struct FileInfo {
    /// Length of the file in bytes.
    pub length: u64,
    /// The directories that lead to the file, and last its name.
    pub path: Vec<String>,
}

/// What a `FileInfo` stands for.
pub struct FileInfoView {
    pub length: u64,
    pub path: Seq<Seq<char>>,
}

/// What a `FileTree` stands for.
pub enum FileTreeView {
    SingleFile { length: u64 },
    MultiFile { files: Seq<FileInfoView> },
}

/// What an `Info` stands for.
pub struct InfoView {
    pub name: Seq<char>,
    pub piece_length: u64,
    pub pieces: Seq<u8>,
    pub file_tree: FileTreeView,
}

/// What a `Torrent` stands for.
pub struct TorrentView {
    pub announce: Seq<char>,
    pub info: InfoView,
    pub comment: Option<Seq<char>>,
    pub created_by: Option<Seq<char>>,
    pub creation_date: Option<i64>,
    pub encoding: Option<Seq<char>>,
}

/// The texts that a sequence of strings holds.
pub open spec fn path_view(path: Seq<String>) -> Seq<Seq<char>> {
    Seq::new(path.len(), |i: int| path[i]@)
}

/// What a sequence of `FileInfo` stands for.
pub open spec fn files_view(files: Seq<FileInfo>) -> Seq<FileInfoView> {
    Seq::new(files.len(), |i: int| files[i]@)
}

/// The text that an optional string holds.
pub open spec fn optional_view(s: Option<String>) -> Option<Seq<char>> {
    match s {
        Some(s) => Some(s@),
        None => None,
    }
}

impl View for FileInfo {
    type V = FileInfoView;

    open spec fn view(&self) -> FileInfoView {
        FileInfoView { length: self.length, path: path_view(self.path@) }
    }
}

impl View for FileTree {
    type V = FileTreeView;

    open spec fn view(&self) -> FileTreeView {
        match self {
            FileTree::SingleFile { length } => FileTreeView::SingleFile { length: *length },
            FileTree::MultiFile { files } => FileTreeView::MultiFile { files: files_view(files@) },
        }
    }
}

impl View for Info {
    type V = InfoView;

    open spec fn view(&self) -> InfoView {
        InfoView {
            name: self.name@,
            piece_length: self.piece_length,
            pieces: self.pieces@,
            file_tree: self.file_tree@,
        }
    }
}

impl View for Torrent {
    type V = TorrentView;

    open spec fn view(&self) -> TorrentView {
        TorrentView {
            announce: self.announce@,
            info: self.info@,
            comment: optional_view(self.comment),
            created_by: optional_view(self.created_by),
            creation_date: self.creation_date,
            encoding: optional_view(self.encoding),
        }
    }
}

/// The components of a path from index `from` on: each has to be text.
pub open spec fn path_from(items: Seq<Bencode>, from: int) -> Result<Seq<Seq<char>>, SchemaError>
    decreases items.len() - from,
{
    if from < 0 || from >= items.len() {
        Ok(Seq::empty())
    } else {
        match items[from] {
            Bencode::Bytes(b) => match text_of(b) {
                Some(t) => after(seq![t], path_from(items, from + 1)),
                None => Err(mismatch(Field::Path, Expected::Text)),
            },
            _ => Err(mismatch(Field::Path, Expected::Text)),
        }
    }
}

/// One entry of `files`: a dictionary with `length` and `path`.
pub open spec fn file_of(v: Bencode) -> Result<FileInfoView, SchemaError> {
    match v {
        Bencode::Dict(entries) => match unsigned_field(entries, Field::Length) {
            Err(e) => Err(e),
            Ok(length) => match lookup(entries, Field::Path.key()) {
                Some(Bencode::List(items)) => match path_from(items, 0) {
                    Ok(path) => Ok(FileInfoView { length, path }),
                    Err(e) => Err(e),
                },
                _ => Err(mismatch(Field::Path, Expected::List)),
            },
        },
        _ => Err(mismatch(Field::Files, Expected::Dictionary)),
    }
}

/// The entries of `files` from index `from` on.
pub open spec fn files_from(items: Seq<Bencode>, from: int) -> Result<
    Seq<FileInfoView>,
    SchemaError,
>
    decreases items.len() - from,
{
    if from < 0 || from >= items.len() {
        Ok(Seq::empty())
    } else {
        match file_of(items[from]) {
            Ok(f) => after(seq![f], files_from(items, from + 1)),
            Err(e) => Err(e),
        }
    }
}

/// The layout that the entries of `info` describe: a single file where
/// `length` is there, several where `files` is, and an error where both
/// are or neither is.
pub open spec fn layout_of(entries: Seq<(Seq<u8>, Bencode)>) -> Result<
    FileTreeView,
    SchemaError,
> {
    match lookup(entries, Field::Length.key()) {
        Some(v) => match lookup(entries, Field::Files.key()) {
            Some(_) => Err(mismatch(Field::Info, Expected::OneLayout)),
            None => match unsigned_of(v, Field::Length) {
                Ok(length) => Ok(FileTreeView::SingleFile { length }),
                Err(e) => Err(e),
            },
        },
        None => match lookup(entries, Field::Files.key()) {
            Some(Bencode::List(items)) => match files_from(items, 0) {
                Ok(files) => Ok(FileTreeView::MultiFile { files }),
                Err(e) => Err(e),
            },
            Some(_) => Err(mismatch(Field::Files, Expected::List)),
            None => Err(mismatch(Field::Info, Expected::OneLayout)),
        },
    }
}

/// The `info` dictionary as the typed model has it. The fields are looked
/// at in this order, and the first that is missing or of another kind is
/// the one reported: `name`, `piece length`, `pieces`, then the layout.
pub open spec fn info_of(v: Bencode) -> Result<InfoView, SchemaError> {
    match v {
        Bencode::Dict(entries) => match text_field(entries, Field::Name) {
            Err(e) => Err(e),
            Ok(name) => match unsigned_field(entries, Field::PieceLength) {
                Err(e) => Err(e),
                Ok(piece_length) => match bytes_field(entries, Field::Pieces) {
                    Err(e) => Err(e),
                    Ok(pieces) => match layout_of(entries) {
                        Err(e) => Err(e),
                        Ok(file_tree) => Ok(InfoView { name, piece_length, pieces, file_tree }),
                    },
                },
            },
        },
        _ => Err(mismatch(Field::Info, Expected::Dictionary)),
    }
}

/// The whole file as the typed model has it. The fields are looked at in
/// this order: `announce`, `info` and what is in it, `comment`,
/// `created by`, `creation date`, `encoding`.
pub open spec fn torrent_of(v: Bencode) -> Result<TorrentView, SchemaError> {
    match v {
        Bencode::Dict(entries) => match text_field(entries, Field::Announce) {
            Err(e) => Err(e),
            Ok(announce) => match lookup(entries, Field::Info.key()) {
                None => Err(mismatch(Field::Info, Expected::Dictionary)),
                Some(i) => match info_of(i) {
                    Err(e) => Err(e),
                    Ok(info) => match optional_text_field(entries, Field::Comment) {
                        Err(e) => Err(e),
                        Ok(comment) => match optional_text_field(entries, Field::CreatedBy) {
                            Err(e) => Err(e),
                            Ok(created_by) => match optional_integer_field(
                                entries,
                                Field::CreationDate,
                            ) {
                                Err(e) => Err(e),
                                Ok(creation_date) => match optional_text_field(
                                    entries,
                                    Field::Encoding,
                                ) {
                                    Err(e) => Err(e),
                                    Ok(encoding) => Ok(
                                        TorrentView {
                                            announce,
                                            info,
                                            comment,
                                            created_by,
                                            creation_date,
                                            encoding,
                                        },
                                    ),
                                },
                            },
                        },
                    },
                },
            },
        },
        _ => Err(mismatch(Field::Root, Expected::Dictionary)),
    }
}

/// What the bytes of a metainfo file hold: the value they begin with,
/// read as a torrent.
pub open spec fn torrent_of_bytes(bytes: Seq<u8>) -> Result<TorrentView, MetainfoError> {
    match parse_unbounded(bytes, 0) {
        Err(e) => Err(MetainfoError::Decode(e)),
        Ok((v, _)) => match torrent_of(v) {
            Ok(t) => Ok(t),
            Err(e) => Err(MetainfoError::Schema(e)),
        },
    }
}

/// The components of a path.
fn path_from_items(items: &Vec<BencodeValue>) -> (r: Result<Vec<String>, SchemaError>)
    ensures
        match r {
            Ok(path) => path_from(list_view(items@), 0) == Ok::<Seq<Seq<char>>, SchemaError>(
                path_view(path@),
            ),
            Err(e) => path_from(list_view(items@), 0) == Err::<Seq<Seq<char>>, SchemaError>(e),
        },
{
    let ghost all = list_view(items@);
    let mut path: Vec<String> = Vec::new();
    let mut i: usize = 0;
    proof {
        assert(path_view(path@) =~= Seq::<Seq<char>>::empty());
        lemma_after_nothing(path_from(all, 0));
    }
    while i < items.len()
        invariant
            i <= items@.len(),
            all == list_view(items@),
            path_from(all, 0) == after(path_view(path@), path_from(all, i as int)),
        decreases items@.len() - i,
    {
        assert(all[i as int] == items@[i as int]@);
        match &items[i] {
            BencodeValue::ByteString(b) => match text_from_bytes(b.as_slice()) {
                Some(s) => {
                    proof {
                        lemma_after_push(path_view(path@), s@, path_from(all, i + 1));
                        assert(path_view(path@.push(s)) =~= path_view(path@).push(s@));
                    }
                    path.push(s);
                },
                None => {
                    return Err(SchemaError { field: Field::Path, expected: Expected::Text });
                },
            },
            _ => {
                return Err(SchemaError { field: Field::Path, expected: Expected::Text });
            },
        }
        i += 1;
    }
    assert(path_view(path@) + Seq::<Seq<char>>::empty() =~= path_view(path@));
    Ok(path)
}

/// One entry of `files`.
fn file_from_value(value: &BencodeValue) -> (r: Result<FileInfo, SchemaError>)
    ensures
        match r {
            Ok(f) => file_of(value@) == Ok::<FileInfoView, SchemaError>(f@),
            Err(e) => file_of(value@) == Err::<FileInfoView, SchemaError>(e),
        },
{
    match value {
        BencodeValue::Dictionary(entries) => {
            let length = match required_unsigned(entries, Field::Length) {
                Ok(n) => n,
                Err(e) => {
                    return Err(e);
                },
            };
            match find(entries, Field::Path) {
                Some(BencodeValue::List(items)) => match path_from_items(items) {
                    Ok(path) => Ok(FileInfo { length, path }),
                    Err(e) => Err(e),
                },
                _ => Err(SchemaError { field: Field::Path, expected: Expected::List }),
            }
        },
        _ => Err(SchemaError { field: Field::Files, expected: Expected::Dictionary }),
    }
}

/// The entries of `files`.
fn files_from_items(items: &Vec<BencodeValue>) -> (r: Result<Vec<FileInfo>, SchemaError>)
    ensures
        match r {
            Ok(files) => files_from(list_view(items@), 0) == Ok::<Seq<FileInfoView>, SchemaError>(
                files_view(files@),
            ),
            Err(e) => files_from(list_view(items@), 0) == Err::<Seq<FileInfoView>, SchemaError>(e),
        },
{
    let ghost all = list_view(items@);
    let mut files: Vec<FileInfo> = Vec::new();
    let mut i: usize = 0;
    proof {
        assert(files_view(files@) =~= Seq::<FileInfoView>::empty());
        lemma_after_nothing(files_from(all, 0));
    }
    while i < items.len()
        invariant
            i <= items@.len(),
            all == list_view(items@),
            files_from(all, 0) == after(files_view(files@), files_from(all, i as int)),
        decreases items@.len() - i,
    {
        assert(all[i as int] == items@[i as int]@);
        match file_from_value(&items[i]) {
            Ok(f) => {
                proof {
                    lemma_after_push(files_view(files@), f@, files_from(all, i + 1));
                    assert(files_view(files@.push(f)) =~= files_view(files@).push(f@));
                }
                files.push(f);
            },
            Err(e) => {
                return Err(e);
            },
        }
        i += 1;
    }
    assert(files_view(files@) + Seq::<FileInfoView>::empty() =~= files_view(files@));
    Ok(files)
}

/// The layout that the entries of `info` describe.
fn layout_from_entries(entries: &Vec<(Vec<u8>, BencodeValue)>) -> (r: Result<
    FileTree,
    SchemaError,
>)
    ensures
        match r {
            Ok(t) => layout_of(dict_view(entries@)) == Ok::<FileTreeView, SchemaError>(t@),
            Err(e) => layout_of(dict_view(entries@)) == Err::<FileTreeView, SchemaError>(e),
        },
{
    match find(entries, Field::Length) {
        Some(v) => match find(entries, Field::Files) {
            Some(_) => Err(SchemaError { field: Field::Info, expected: Expected::OneLayout }),
            None => match unsigned_value(v, Field::Length) {
                Ok(length) => Ok(FileTree::SingleFile { length }),
                Err(e) => Err(e),
            },
        },
        None => match find(entries, Field::Files) {
            Some(BencodeValue::List(items)) => match files_from_items(items) {
                Ok(files) => Ok(FileTree::MultiFile { files }),
                Err(e) => Err(e),
            },
            Some(_) => Err(SchemaError { field: Field::Files, expected: Expected::List }),
            None => Err(SchemaError { field: Field::Info, expected: Expected::OneLayout }),
        },
    }
}

impl Info {
    /// Reads the `info` dictionary out of a decoded value.
    ///
    /// `name`, `piece length` and `pieces` are required, and exactly one of
    /// `length` and `files`. The first field that is missing or holds
    /// another kind of value than it has to is reported, in the order
    /// given at `info_of`. Keys that the model does not know are passed
    /// over.
    pub fn from_bencode(value: &BencodeValue) -> (r: Result<Info, SchemaError>)
        ensures
            match r {
                Ok(info) => info_of(value@) == Ok::<InfoView, SchemaError>(info@),
                Err(e) => info_of(value@) == Err::<InfoView, SchemaError>(e),
            },
    {
        match value {
            BencodeValue::Dictionary(entries) => {
                let name = match required_text(entries, Field::Name) {
                    Ok(s) => s,
                    Err(e) => {
                        return Err(e);
                    },
                };
                let piece_length = match required_unsigned(entries, Field::PieceLength) {
                    Ok(n) => n,
                    Err(e) => {
                        return Err(e);
                    },
                };
                let pieces = match required_bytes(entries, Field::Pieces) {
                    Ok(b) => b,
                    Err(e) => {
                        return Err(e);
                    },
                };
                match layout_from_entries(entries) {
                    Ok(file_tree) => Ok(Info { name, piece_length, pieces, file_tree }),
                    Err(e) => Err(e),
                }
            },
            _ => Err(SchemaError { field: Field::Info, expected: Expected::Dictionary }),
        }
    }
}

impl Torrent {
    /// Reads a torrent out of a decoded value.
    ///
    /// `announce` and `info` are required; `comment`, `created by`,
    /// `creation date` and `encoding` may be absent, but hold the right
    /// kind of value where they are there. The first field at fault is
    /// reported, in the order given at `torrent_of`.
    pub fn from_bencode(value: &BencodeValue) -> (r: Result<Torrent, SchemaError>)
        ensures
            match r {
                Ok(t) => torrent_of(value@) == Ok::<TorrentView, SchemaError>(t@),
                Err(e) => torrent_of(value@) == Err::<TorrentView, SchemaError>(e),
            },
    {
        match value {
            BencodeValue::Dictionary(entries) => {
                let announce = match required_text(entries, Field::Announce) {
                    Ok(s) => s,
                    Err(e) => {
                        return Err(e);
                    },
                };
                let info = match find(entries, Field::Info) {
                    None => {
                        return Err(
                            SchemaError { field: Field::Info, expected: Expected::Dictionary },
                        );
                    },
                    Some(i) => match Info::from_bencode(i) {
                        Ok(info) => info,
                        Err(e) => {
                            return Err(e);
                        },
                    },
                };
                let comment = match optional_text(entries, Field::Comment) {
                    Ok(s) => s,
                    Err(e) => {
                        return Err(e);
                    },
                };
                let created_by = match optional_text(entries, Field::CreatedBy) {
                    Ok(s) => s,
                    Err(e) => {
                        return Err(e);
                    },
                };
                let creation_date = match optional_integer(entries, Field::CreationDate) {
                    Ok(d) => d,
                    Err(e) => {
                        return Err(e);
                    },
                };
                let encoding = match optional_text(entries, Field::Encoding) {
                    Ok(s) => s,
                    Err(e) => {
                        return Err(e);
                    },
                };
                Ok(Torrent { announce, info, comment, created_by, creation_date, encoding })
            },
            _ => Err(SchemaError { field: Field::Root, expected: Expected::Dictionary }),
        }
    }
}

/// Reads a metainfo file from its bytes: decodes the value they begin with
/// and reads it as a torrent. Bytes behind that value are not looked at.
///
/// Fails with `Decode` and the codec's error where the bytes are not
/// bencode, and with `Schema` and the field at fault where the value is
/// no torrent.
///
/// Nesting is not limited here. For bytes from strangers decode with
/// `decode_one_bounded` and read the value with `Torrent::from_bencode`.
pub fn parse_torrent_file(bytes: &[u8]) -> (r: Result<Torrent, MetainfoError>)
    ensures
        match r {
            Ok(t) => torrent_of_bytes(bytes@) == Ok::<TorrentView, MetainfoError>(t@),
            Err(e) => torrent_of_bytes(bytes@) == Err::<TorrentView, MetainfoError>(e),
        },
{
    match decode_top_level(bytes) {
        Err(e) => Err(MetainfoError::Decode(e)),
        Ok(value) => match Torrent::from_bencode(&value) {
            Ok(t) => Ok(t),
            Err(e) => Err(MetainfoError::Schema(e)),
        },
    }
}

/// Whether a length can be written as a bencode integer, which is signed
/// and 64 bits wide.
pub open spec fn fits_integer(n: u64) -> bool {
    n <= 0x7fff_ffff_ffff_ffff
}

/// Text as a bencode value: the byte string of its UTF-8 encoding.
pub open spec fn text_value(t: Seq<char>) -> Bencode {
    Bencode::Bytes(encode_utf8(t))
}

/// A path as a bencode value: the list of its components.
pub open spec fn path_value(path: Seq<Seq<char>>) -> Bencode {
    Bencode::List(Seq::new(path.len(), |i: int| text_value(path[i])))
}

/// One file as a bencode value: the dictionary of `length` and `path`.
pub open spec fn file_value(f: FileInfoView) -> Bencode {
    Bencode::Dict(
        seq![
            (Field::Length.key(), Bencode::Integer(f.length as i64)),
            (Field::Path.key(), path_value(f.path)),
        ],
    )
}

/// The entry of `info` that says what the torrent holds: `length` for a
/// single file, `files` for several.
pub open spec fn layout_entry(t: FileTreeView) -> (Seq<u8>, Bencode) {
    match t {
        FileTreeView::SingleFile { length } => (
            Field::Length.key(),
            Bencode::Integer(length as i64),
        ),
        FileTreeView::MultiFile { files } => (
            Field::Files.key(),
            Bencode::List(Seq::new(files.len(), |i: int| file_value(files[i]))),
        ),
    }
}

/// The `info` dictionary as a bencode value, holding the fields of the
/// model and no others.
pub open spec fn info_value(i: InfoView) -> Bencode {
    Bencode::Dict(
        seq![
            layout_entry(i.file_tree),
            (Field::Name.key(), text_value(i.name)),
            (Field::PieceLength.key(), Bencode::Integer(i.piece_length as i64)),
            (Field::Pieces.key(), Bencode::Bytes(i.pieces)),
        ],
    )
}

/// The sum of the lengths of the files.
pub open spec fn sum_of_lengths(files: Seq<FileInfoView>) -> nat
    decreases files.len(),
{
    if files.len() == 0 {
        0
    } else {
        sum_of_lengths(files.drop_last()) + files.last().length as nat
    }
}

impl FileTreeView {
    /// Whether every length in the layout can be written as a bencode
    /// integer.
    pub open spec fn encodable(self) -> bool {
        match self {
            FileTreeView::SingleFile { length } => fits_integer(length),
            FileTreeView::MultiFile { files } => forall|i: int|
                0 <= i < files.len() ==> fits_integer((#[trigger] files[i]).length),
        }
    }

    /// The number of bytes that the torrent holds in all: the length of
    /// the single file, or the sum of the lengths of the files.
    pub open spec fn total_length(self) -> nat {
        match self {
            FileTreeView::SingleFile { length } => length as nat,
            FileTreeView::MultiFile { files } => sum_of_lengths(files),
        }
    }
}

impl InfoView {
    /// Whether the dictionary can be written as bencode: whether the piece
    /// length and every file's length fit a bencode integer.
    pub open spec fn encodable(self) -> bool {
        fits_integer(self.piece_length) && self.file_tree.encodable()
    }

    /// The field that is reported where the dictionary cannot be written:
    /// `piece length` where that does not fit, else `length`.
    pub open spec fn unfit_field(self) -> Field {
        if !fits_integer(self.piece_length) {
            Field::PieceLength
        } else {
            Field::Length
        }
    }

    /// The info hash: the SHA-1 digest of the dictionary's canonical
    /// bencoding.
    pub open spec fn info_hash(self) -> Seq<u8> {
        sha1_digest(encode_value(info_value(self)))
    }
}

/// The bytes of `pieces` that are the hash of piece `i`.
pub open spec fn piece_hash(pieces: Seq<u8>, i: int) -> Seq<u8> {
    pieces.subrange(20 * i, 20 * i + 20)
}

/// The error that says a length does not fit a bencode integer.
fn unfit(field: Field) -> (e: SchemaError)
    ensures
        e == mismatch(field, Expected::Integer),
{
    SchemaError { field, expected: Expected::Integer }
}

/// A field's key as a dictionary holds it.
fn key_of(field: Field) -> (key: Vec<u8>)
    ensures
        key@ == field.key(),
{
    string_bytes(field.name())
}

/// A path as a bencode value.
fn path_to_value(path: &Vec<String>) -> (v: BencodeValue)
    ensures
        v@ == path_value(path_view(path@)),
{
    let mut items: Vec<BencodeValue> = Vec::new();
    let mut i: usize = 0;
    while i < path.len()
        invariant
            i <= path@.len(),
            items@.len() == i,
            forall|k: int| 0 <= k < i ==> (#[trigger] items@[k])@ == text_value(path@[k]@),
        decreases path@.len() - i,
    {
        items.push(BencodeValue::ByteString(string_bytes(path[i].as_str())));
        i += 1;
    }
    let v = BencodeValue::List(items);
    proof {
        let target = Seq::new(path_view(path@).len(), |i: int| text_value(path_view(path@)[i]));
        assert(list_view(items@) =~= target);
    }
    v
}

/// One file as a bencode value; the field at fault where its length does
/// not fit.
fn file_to_value(f: &FileInfo) -> (r: Result<BencodeValue, SchemaError>)
    ensures
        match r {
            Ok(v) => fits_integer(f.length) && v@ == file_value(f@),
            Err(e) => !fits_integer(f.length) && e == mismatch(Field::Length, Expected::Integer),
        },
{
    if f.length > 0x7fff_ffff_ffff_ffff {
        return Err(unfit(Field::Length));
    }
    let mut entries: Vec<(Vec<u8>, BencodeValue)> = Vec::new();
    entries.push((key_of(Field::Length), BencodeValue::Integer(f.length as i64)));
    entries.push((key_of(Field::Path), path_to_value(&f.path)));
    let v = BencodeValue::Dictionary(entries);
    proof {
        assert(dict_view(entries@) =~= file_value(f@)->Dict_0);
    }
    Ok(v)
}

/// A set of files of which one has a length that does not fit cannot be
/// written.
proof fn lemma_unfit_file(files: Seq<FileInfoView>, i: int)
    requires
        0 <= i < files.len(),
        !fits_integer(files[i].length),
    ensures
        !(FileTreeView::MultiFile { files }).encodable(),
{
    let tree = FileTreeView::MultiFile { files };
    assert(tree->files == files);
    if tree.encodable() {
        assert(fits_integer(files[i].length));
    }
}

/// The entry of `info` that says what the torrent holds.
fn layout_to_entry(tree: &FileTree) -> (r: Result<(Vec<u8>, BencodeValue), SchemaError>)
    ensures
        match r {
            Ok(entry) => tree@.encodable() && (entry.0@, entry.1@) == layout_entry(tree@),
            Err(e) => !tree@.encodable() && e == mismatch(Field::Length, Expected::Integer),
        },
{
    match tree {
        FileTree::SingleFile { length } => {
            if *length > 0x7fff_ffff_ffff_ffff {
                return Err(unfit(Field::Length));
            }
            Ok((key_of(Field::Length), BencodeValue::Integer(*length as i64)))
        },
        FileTree::MultiFile { files } => {
            let ghost held = files_view(files@);
            let mut items: Vec<BencodeValue> = Vec::new();
            let mut i: usize = 0;
            while i < files.len()
                invariant
                    i <= files@.len(),
                    items@.len() == i,
                    held == files_view(files@),
                    tree@ == (FileTreeView::MultiFile { files: held }),
                    forall|k: int| 0 <= k < i ==> fits_integer((#[trigger] held[k]).length),
                    forall|k: int| 0 <= k < i ==> (#[trigger] items@[k])@ == file_value(held[k]),
                decreases files@.len() - i,
            {
                assert(held[i as int] == files@[i as int]@);
                match file_to_value(&files[i]) {
                    Ok(v) => {
                        items.push(v);
                    },
                    Err(e) => {
                        proof {
                            lemma_unfit_file(held, i as int);
                        }
                        return Err(e);
                    },
                }
                i += 1;
            }
            let v = BencodeValue::List(items);
            proof {
                assert(list_view(items@) =~= Seq::new(held.len(), |i: int| file_value(held[i])));
            }
            Ok((key_of(Field::Files), v))
        },
    }
}

/// The least piece length that the protocol allows: 16 KiB.
pub const MIN_PIECE_LENGTH: u64 = 16384;

/// Whether `n` is a piece length that the protocol allows: a power of two,
/// and at least 16 KiB.
pub open spec fn valid_piece_length(n: u64) -> bool {
    n >= MIN_PIECE_LENGTH && is_pow2(n as int)
}

impl Info {
    /// Whether the piece length is one that the protocol allows: a power
    /// of two, and at least 16 KiB. Reading a file does not ask this; a
    /// caller to whom it matters does.
    pub fn has_valid_piece_length(&self) -> (valid: bool)
        ensures
            valid == valid_piece_length(self.piece_length),
    {
        if self.piece_length < MIN_PIECE_LENGTH {
            return false;
        }
        let mut rest: u64 = self.piece_length;
        while rest % 2 == 0
            invariant
                rest >= 1,
                is_pow2(rest as int) == is_pow2(self.piece_length as int),
            decreases rest,
        {
            proof {
                reveal(is_pow2);
            }
            rest = rest / 2;
        }
        proof {
            reveal(is_pow2);
        }
        rest == 1
    }

    /// The dictionary as a bencode value, holding the fields of the model
    /// and no others; the field at fault where a length does not fit a
    /// bencode integer.
    pub fn to_bencode(&self) -> (r: Result<BencodeValue, SchemaError>)
        ensures
            match r {
                Ok(v) => self@.encodable() && v@ == info_value(self@),
                Err(e) => !self@.encodable() && e == mismatch(
                    self@.unfit_field(),
                    Expected::Integer,
                ),
            },
    {
        if self.piece_length > 0x7fff_ffff_ffff_ffff {
            return Err(unfit(Field::PieceLength));
        }
        let layout = match layout_to_entry(&self.file_tree) {
            Ok(entry) => entry,
            Err(e) => {
                return Err(e);
            },
        };
        let mut entries: Vec<(Vec<u8>, BencodeValue)> = Vec::new();
        entries.push(layout);
        entries.push(
            (key_of(Field::Name), BencodeValue::ByteString(string_bytes(self.name.as_str()))),
        );
        entries.push((key_of(Field::PieceLength), BencodeValue::Integer(self.piece_length as i64)));
        entries.push(
            (key_of(Field::Pieces), BencodeValue::ByteString(slice_to_vec(self.pieces.as_slice()))),
        );
        let v = BencodeValue::Dictionary(entries);
        proof {
            assert(dict_view(entries@) =~= info_value(self@)->Dict_0);
        }
        Ok(v)
    }
}

impl FileTree {
    /// The number of bytes that the torrent holds in all: the length of
    /// the single file, or the sum of the lengths of the files. `None`
    /// where the sum does not fit 64 bits.
    pub fn total_length(&self) -> (total: Option<u64>)
        ensures
            match total {
                Some(n) => n == self@.total_length(),
                None => self@.total_length() > u64::MAX,
            },
    {
        match self {
            FileTree::SingleFile { length } => Some(*length),
            FileTree::MultiFile { files } => {
                let ghost held = files_view(files@);
                let mut sum: u64 = 0;
                let mut i: usize = 0;
                assert(held.take(0) =~= Seq::<FileInfoView>::empty());
                while i < files.len()
                    invariant
                        i <= files@.len(),
                        held == files_view(files@),
                        self@.total_length() == sum_of_lengths(held),
                        sum == sum_of_lengths(held.take(i as int)),
                    decreases files@.len() - i,
                {
                    proof {
                        let longer = held.take(i + 1);
                        assert(longer.drop_last() =~= held.take(i as int));
                        assert(longer.last() == files@[i as int]@);
                    }
                    let length: u64 = files[i].length;
                    if length > u64::MAX - sum {
                        proof {
                            lemma_sum_of_lengths_grows(held, i + 1);
                        }
                        return None;
                    }
                    sum = sum + length;
                    i += 1;
                }
                assert(held.take(i as int) =~= held);
                Some(sum)
            },
        }
    }
}

/// The sum of the lengths of the first `n` files is no more than that of
/// all.
pub proof fn lemma_sum_of_lengths_grows(files: Seq<FileInfoView>, n: int)
    requires
        0 <= n <= files.len(),
    ensures
        sum_of_lengths(files.take(n)) <= sum_of_lengths(files),
    decreases files.len() - n,
{
    if n == files.len() {
        assert(files.take(n) =~= files);
    } else {
        lemma_sum_of_lengths_grows(files, n + 1);
        assert(files.take(n + 1).drop_last() =~= files.take(n));
    }
}

/// The info hash as raw bytes: the SHA-1 digest, 20 bytes, of the canonical
/// bencoding of the `info` dictionary alone. It depends on nothing but the
/// dictionary, so equal dictionaries have equal hashes.
///
/// Fails, naming the field, where a length does not fit a bencode integer.
pub fn calculate_info_hash_bytes(info_dict: &Info) -> (r: Result<Vec<u8>, MetainfoError>)
    ensures
        match r {
            Ok(digest) => info_dict@.encodable() && digest@ == info_dict@.info_hash()
                && digest@.len() == DIGEST_LEN,
            Err(e) => !info_dict@.encodable() && e == MetainfoError::Schema(
                mismatch(info_dict@.unfit_field(), Expected::Integer),
            ),
        },
{
    match info_dict.to_bencode() {
        Ok(value) => {
            let encoded = encode(&value);
            Ok(sha1_of(encoded.as_slice()))
        },
        Err(e) => Err(MetainfoError::Schema(e)),
    }
}

/// The info hash in hexadecimal: 40 lower-case digits.
pub fn calculate_info_hash(info_dict: &Info) -> (r: Result<String, MetainfoError>)
    ensures
        match r {
            Ok(text) => info_dict@.encodable() && text@ == hex_text(info_dict@.info_hash()),
            Err(e) => !info_dict@.encodable() && e == MetainfoError::Schema(
                mismatch(info_dict@.unfit_field(), Expected::Integer),
            ),
        },
{
    match calculate_info_hash_bytes(info_dict) {
        Ok(digest) => Ok(to_hex(digest.as_slice())),
        Err(e) => Err(e),
    }
}

/// The info hash as it goes into a URL: each of its 20 bytes
/// percent-encoded.
pub fn calculate_urlencoded_info_hash(info_dict: &Info) -> (r: Result<String, MetainfoError>)
    ensures
        match r {
            Ok(text) => info_dict@.encodable() && text@ == ascii_text(
                percent_encoded(info_dict@.info_hash()),
            ),
            Err(e) => !info_dict@.encodable() && e == MetainfoError::Schema(
                mismatch(info_dict@.unfit_field(), Expected::Integer),
            ),
        },
{
    match calculate_info_hash_bytes(info_dict) {
        Ok(digest) => {
            let encoded = percent_encode(digest.as_slice());
            proof {
                lemma_percent_encoded_is_ascii(digest@);
            }
            Ok(ascii_string(encoded.as_slice()))
        },
        Err(e) => Err(e),
    }
}

/// The info hash of a metainfo file taken of the `info` dictionary as the
/// file holds it: the SHA-1 digest of the canonical bencoding of that
/// dictionary with every key in it, also those that `Info` does not
/// know.
pub open spec fn info_hash_of_bytes(bytes: Seq<u8>) -> Result<Seq<u8>, MetainfoError> {
    match parse_unbounded(bytes, 0) {
        Err(e) => Err(MetainfoError::Decode(e)),
        Ok((Bencode::Dict(entries), _)) => match lookup(entries, Field::Info.key()) {
            Some(Bencode::Dict(info)) => Ok(sha1_digest(encode_value(Bencode::Dict(info)))),
            _ => Err(MetainfoError::Schema(mismatch(Field::Info, Expected::Dictionary))),
        },
        Ok(_) => Err(MetainfoError::Schema(mismatch(Field::Root, Expected::Dictionary))),
    }
}

/// The info hash of a metainfo file, taken of its `info` dictionary with
/// every key that the file holds there.
///
/// `Info` keeps the keys it knows and passes over the others, so the hash
/// of an `Info` is that of the file only where the file's `info` holds no
/// others. This function hashes what is in the file: the dictionary is
/// decoded, written again in canonical order, and digested. It does not
/// look whether the dictionary is a well-formed `info`.
pub fn info_hash_of_file(bytes: &[u8]) -> (r: Result<Vec<u8>, MetainfoError>)
    ensures
        match r {
            Ok(digest) => info_hash_of_bytes(bytes@) == Ok::<Seq<u8>, MetainfoError>(digest@)
                && digest@.len() == DIGEST_LEN,
            Err(e) => info_hash_of_bytes(bytes@) == Err::<Seq<u8>, MetainfoError>(e),
        },
{
    match decode_top_level(bytes) {
        Err(e) => Err(MetainfoError::Decode(e)),
        Ok(BencodeValue::Dictionary(entries)) => match find(&entries, Field::Info) {
            Some(info) => match info {
                BencodeValue::Dictionary(_) => {
                    let encoded = encode(info);
                    Ok(sha1_of(encoded.as_slice()))
                },
                _ => Err(
                    MetainfoError::Schema(
                        SchemaError { field: Field::Info, expected: Expected::Dictionary },
                    ),
                ),
            },
            None => Err(
                MetainfoError::Schema(
                    SchemaError { field: Field::Info, expected: Expected::Dictionary },
                ),
            ),
        },
        Ok(_) => Err(
            MetainfoError::Schema(
                SchemaError { field: Field::Root, expected: Expected::Dictionary },
            ),
        ),
    }
}

/// `pieces` cannot be cut into hashes.
#[derive(Debug, Clone, Copy, PartialEq, Eq, Structural)]
pub enum PiecesError {
    /// The length of `pieces` is not a multiple of 20.
    InvalidLength,
}

/// The hashes of the pieces: `pieces` cut into runs of 20 bytes, the hash
/// of piece `i` at index `i`. Fails where the length of `pieces` is not a
/// multiple of 20.
pub fn piece_hashes(info_dict: &Info) -> (r: Result<Vec<Vec<u8>>, PiecesError>)
    ensures
        match r {
            Ok(hashes) => {
                &&& info_dict.pieces@.len() % 20 == 0
                &&& hashes@.len() == info_dict.pieces@.len() / 20
                &&& forall|i: int|
                    0 <= i < hashes@.len() ==> (#[trigger] hashes@[i])@ == piece_hash(
                        info_dict.pieces@,
                        i,
                    )
                &&& forall|i: int| 0 <= i < hashes@.len() ==> (#[trigger] hashes@[i])@.len() == 20
            },
            Err(e) => info_dict.pieces@.len() % 20 != 0,
        },
{
    let pieces = info_dict.pieces.as_slice();
    if pieces.len() % 20 != 0 {
        return Err(PiecesError::InvalidLength);
    }
    let len: usize = pieces.len();
    let count: usize = len / 20;
    let mut hashes: Vec<Vec<u8>> = Vec::new();
    let mut i: usize = 0;
    while i < count
        invariant
            i <= count,
            len == pieces@.len(),
            count == len / 20,
            len % 20 == 0,
            pieces@ == info_dict.pieces@,
            hashes@.len() == i,
            forall|k: int| 0 <= k < i ==> (#[trigger] hashes@[k])@ == piece_hash(pieces@, k),
        decreases count - i,
    {
        assert(20 * i + 20 <= len);
        hashes.push(slice_to_vec(slice_subrange(pieces, 20 * i, 20 * i + 20)));
        i += 1;
    }
    Ok(hashes)
}

/// The hashes of the pieces in hexadecimal, 40 digits each, the hash of
/// piece `i` at index `i`. Fails where the length of `pieces` is not a
/// multiple of 20.
pub fn get_pieces_hashes(info_dict: &Info) -> (r: Result<Vec<String>, PiecesError>)
    ensures
        match r {
            Ok(hashes) => {
                &&& info_dict.pieces@.len() % 20 == 0
                &&& hashes@.len() == info_dict.pieces@.len() / 20
                &&& forall|i: int|
                    0 <= i < hashes@.len() ==> (#[trigger] hashes@[i])@ == hex_text(
                        piece_hash(info_dict.pieces@, i),
                    )
            },
            Err(e) => info_dict.pieces@.len() % 20 != 0,
        },
{
    let raw = match piece_hashes(info_dict) {
        Ok(raw) => raw,
        Err(e) => {
            return Err(e);
        },
    };
    let mut hashes: Vec<String> = Vec::new();
    let mut i: usize = 0;
    while i < raw.len()
        invariant
            i <= raw@.len(),
            hashes@.len() == i,
            forall|k: int|
                0 <= k < raw@.len() ==> (#[trigger] raw@[k])@ == piece_hash(info_dict.pieces@, k),
            forall|k: int|
                0 <= k < i ==> (#[trigger] hashes@[k])@ == hex_text(
                    piece_hash(info_dict.pieces@, k),
                ),
        decreases raw@.len() - i,
    {
        hashes.push(to_hex(raw[i].as_slice()));
        i += 1;
    }
    Ok(hashes)
}

} // verus!
