//! What holds of reading a metainfo file: the order of a dictionary's
//! keys does not show in what is read, and so not in the info hash.

use crate::canonical::{
    covered_by, is_partner_place, lemma_covering_is_onto, lemma_encoding_ignores_order,
    lemma_partner_of, partner_of, same_content, unique_keys,
};
use crate::digest::sha1_digest;
use crate::grammar::encode_value;
use crate::parser::{
    file_of, file_value, files_from, fits_integer, info_of, info_value, layout_entry, layout_of,
    path_from, path_value, text_value, torrent_of, FileInfoView, FileTreeView, Info, InfoView,
};
use crate::schema::{
    bytes_field, lookup, optional_integer_field, optional_text_field, optional_unsigned_field,
    text_field, unsigned_field, Field, SchemaError,
};
use crate::text::lemma_text_of_encoded;
use crate::tracker::response_of;
use crate::value::Bencode;
use vstd::prelude::*;
use vstd::utf8::encode_utf8_decode_utf8;

verus! {

/// What `lookup` finds is the value of an entry with that key, and where
/// it finds nothing no entry has that key.
pub proof fn lemma_lookup(entries: Seq<(Seq<u8>, Bencode)>, key: Seq<u8>)
    ensures
        match lookup(entries, key) {
            Some(v) => exists|i: int|
                0 <= i < entries.len() && #[trigger] entries[i] == (key, v),
            None => forall|i: int| 0 <= i < entries.len() ==> (#[trigger] entries[i]).0 != key,
        },
    decreases entries.len(),
{
    if entries.len() > 0 {
        if entries[0].0 == key {
            assert(entries[0] == (key, entries[0].1));
        } else {
            let rest = entries.drop_first();
            lemma_lookup(rest, key);
            match lookup(rest, key) {
                Some(v) => {
                    let i = choose|i: int| 0 <= i < rest.len() && #[trigger] rest[i] == (key, v);
                    assert(entries[i + 1] == (key, v));
                },
                None => {
                    assert forall|i: int| 0 <= i < entries.len() implies (#[trigger] entries[i]).0
                        != key by {
                        if i > 0 {
                            assert(rest[i - 1] == entries[i]);
                        }
                    }
                },
            }
        }
    }
}

/// Where no key occurs twice, `lookup` finds the value of the one entry
/// with that key.
pub proof fn lemma_lookup_unique(entries: Seq<(Seq<u8>, Bencode)>, i: int)
    requires
        unique_keys(entries),
        0 <= i < entries.len(),
    ensures
        lookup(entries, entries[i].0) == Some(entries[i].1),
{
    let key = entries[i].0;
    lemma_lookup(entries, key);
    match lookup(entries, key) {
        Some(v) => {
            let k = choose|k: int| 0 <= k < entries.len() && #[trigger] entries[k] == (key, v);
            if k < i {
                assert(entries[k].0 != entries[i].0);
            } else if i < k {
                assert(entries[i].0 != entries[k].0);
            }
        },
        None => {
            assert(entries[i].0 != key);
        },
    }
}

/// Whether two things looked up are both absent, or both there with the
/// same content.
pub open spec fn same_found(u: Option<Bencode>, v: Option<Bencode>) -> bool {
    match u {
        None => v is None,
        Some(a) => v is Some && same_content(a, v->Some_0),
    }
}

/// In dictionaries of the same content, whatever their order, a key is
/// absent from both or leads to values of the same content.
pub proof fn lemma_lookup_ignores_order(a: Bencode, b: Bencode, key: Seq<u8>)
    requires
        a is Dict,
        same_content(a, b),
    ensures
        same_found(lookup(a->Dict_0, key), lookup(b->Dict_0, key)),
{
    let x = a->Dict_0;
    let y = b->Dict_0;
    assert(covered_by(x, y));
    lemma_lookup(x, key);
    lemma_lookup(y, key);
    match lookup(x, key) {
        Some(u) => {
            let i = choose|i: int| 0 <= i < x.len() && #[trigger] x[i] == (key, u);
            lemma_partner_of(x, y, i);
            lemma_lookup_unique(y, partner_of(x, y, i));
        },
        None => {
            match lookup(y, key) {
                Some(v) => {
                    let j = choose|j: int| 0 <= j < y.len() && #[trigger] y[j] == (key, v);
                    lemma_covering_is_onto(x, y);
                    assert(is_partner_place(x, y, j));
                    let i = choose|i: int| 0 <= i < x.len() && #[trigger] partner_of(x, y, i) == j;
                    lemma_partner_of(x, y, i);
                    assert(x[i].0 == key);
                },
                None => {},
            }
        },
    }
}

/// Values of the same content are of the same kind, and equal where they
/// are integers or strings.
pub proof fn lemma_same_content_kind(a: Bencode, b: Bencode)
    requires
        same_content(a, b),
    ensures
        a is Integer <==> b is Integer,
        a is Bytes <==> b is Bytes,
        a is List <==> b is List,
        a is Dict <==> b is Dict,
        a is Integer || a is Bytes ==> a == b,
{
}

/// Every way of reading one field gives the same for dictionaries of the
/// same content.
pub proof fn lemma_fields_ignore_order(a: Bencode, b: Bencode, field: Field)
    requires
        a is Dict,
        same_content(a, b),
    ensures
        text_field(a->Dict_0, field) == text_field(b->Dict_0, field),
        optional_text_field(a->Dict_0, field) == optional_text_field(b->Dict_0, field),
        bytes_field(a->Dict_0, field) == bytes_field(b->Dict_0, field),
        unsigned_field(a->Dict_0, field) == unsigned_field(b->Dict_0, field),
        optional_unsigned_field(a->Dict_0, field) == optional_unsigned_field(b->Dict_0, field),
        optional_integer_field(a->Dict_0, field) == optional_integer_field(b->Dict_0, field),
{
    lemma_lookup_ignores_order(a, b, field.key());
    match lookup(a->Dict_0, field.key()) {
        Some(u) => {
            lemma_same_content_kind(u, lookup(b->Dict_0, field.key())->Some_0);
        },
        None => {},
    }
}

/// The components of a path are read the same from lists of the same
/// content.
pub proof fn lemma_path_ignores_order(x: Seq<Bencode>, y: Seq<Bencode>, from: int)
    requires
        same_content(Bencode::List(x), Bencode::List(y)),
        0 <= from,
    ensures
        path_from(x, from) == path_from(y, from),
    decreases x.len() - from,
{
    if from < x.len() {
        assert(same_content(x[from], y[from]));
        lemma_same_content_kind(x[from], y[from]);
        lemma_path_ignores_order(x, y, from + 1);
    }
}

/// An entry of `files` is read the same from values of the same content.
pub proof fn lemma_file_ignores_order(a: Bencode, b: Bencode)
    requires
        same_content(a, b),
    ensures
        file_of(a) == file_of(b),
{
    lemma_same_content_kind(a, b);
    if a is Dict {
        lemma_fields_ignore_order(a, b, Field::Length);
        lemma_lookup_ignores_order(a, b, Field::Path.key());
        match lookup(a->Dict_0, Field::Path.key()) {
            Some(u) => {
                let v = lookup(b->Dict_0, Field::Path.key())->Some_0;
                lemma_same_content_kind(u, v);
                if u is List {
                    lemma_path_ignores_order(u->List_0, v->List_0, 0);
                }
            },
            None => {},
        }
    }
}

/// The entries of `files` are read the same from lists of the same
/// content.
pub proof fn lemma_files_ignore_order(x: Seq<Bencode>, y: Seq<Bencode>, from: int)
    requires
        same_content(Bencode::List(x), Bencode::List(y)),
        0 <= from,
    ensures
        files_from(x, from) == files_from(y, from),
    decreases x.len() - from,
{
    if from < x.len() {
        assert(same_content(x[from], y[from]));
        lemma_file_ignores_order(x[from], y[from]);
        lemma_files_ignore_order(x, y, from + 1);
    }
}

/// The `info` dictionary is read the same from values of the same content:
/// the order of the keys, in it and in the entries of `files`, does not
/// show in the typed model, and so not in the info hash.
pub proof fn lemma_info_ignores_order(a: Bencode, b: Bencode)
    requires
        same_content(a, b),
    ensures
        info_of(a) == info_of(b),
        info_of(a) matches Ok(i) ==> info_of(b)->Ok_0.info_hash() == i.info_hash(),
{
    lemma_same_content_kind(a, b);
    if a is Dict {
        lemma_fields_ignore_order(a, b, Field::Name);
        lemma_fields_ignore_order(a, b, Field::PieceLength);
        lemma_fields_ignore_order(a, b, Field::Pieces);
        lemma_lookup_ignores_order(a, b, Field::Length.key());
        lemma_lookup_ignores_order(a, b, Field::Files.key());
        match lookup(a->Dict_0, Field::Length.key()) {
            Some(u) => {
                lemma_same_content_kind(u, lookup(b->Dict_0, Field::Length.key())->Some_0);
            },
            None => {},
        }
        match lookup(a->Dict_0, Field::Files.key()) {
            Some(u) => {
                let v = lookup(b->Dict_0, Field::Files.key())->Some_0;
                lemma_same_content_kind(u, v);
                if u is List {
                    lemma_files_ignore_order(u->List_0, v->List_0, 0);
                }
            },
            None => {},
        }
        assert(layout_of(a->Dict_0) == layout_of(b->Dict_0));
    }
}

/// A torrent is read the same from values of the same content.
pub proof fn lemma_torrent_ignores_order(a: Bencode, b: Bencode)
    requires
        same_content(a, b),
    ensures
        torrent_of(a) == torrent_of(b),
{
    lemma_same_content_kind(a, b);
    if a is Dict {
        lemma_fields_ignore_order(a, b, Field::Announce);
        lemma_fields_ignore_order(a, b, Field::Comment);
        lemma_fields_ignore_order(a, b, Field::CreatedBy);
        lemma_fields_ignore_order(a, b, Field::CreationDate);
        lemma_fields_ignore_order(a, b, Field::Encoding);
        lemma_lookup_ignores_order(a, b, Field::Info.key());
        match lookup(a->Dict_0, Field::Info.key()) {
            Some(u) => {
                lemma_info_ignores_order(u, lookup(b->Dict_0, Field::Info.key())->Some_0);
            },
            None => {},
        }
    }
}

/// The tracker's answer is read the same from values of the same content.
pub proof fn lemma_response_ignores_order(a: Bencode, b: Bencode)
    requires
        same_content(a, b),
    ensures
        response_of(a) == response_of(b),
{
    lemma_same_content_kind(a, b);
    if a is Dict {
        lemma_fields_ignore_order(a, b, Field::Interval);
        lemma_fields_ignore_order(a, b, Field::MinInterval);
        lemma_fields_ignore_order(a, b, Field::Peers);
    }
}

/// Different fields have different keys.
pub proof fn lemma_keys_differ(f: Field, g: Field)
    requires
        f != g,
    ensures
        f.key() != g.key(),
{
    reveal_strlit("");
    reveal_strlit("announce");
    reveal_strlit("info");
    reveal_strlit("name");
    reveal_strlit("piece length");
    reveal_strlit("pieces");
    reveal_strlit("length");
    reveal_strlit("files");
    reveal_strlit("path");
    reveal_strlit("comment");
    reveal_strlit("created by");
    reveal_strlit("creation date");
    reveal_strlit("encoding");
    reveal_strlit("interval");
    reveal_strlit("min interval");
    reveal_strlit("peers");
    assert(f.text().len() != g.text().len() || f.text()[0] != g.text()[0]);
    encode_utf8_decode_utf8(f.text());
    encode_utf8_decode_utf8(g.text());
}

/// A key that no entry has is looked up in vain.
pub proof fn lemma_lookup_absent(entries: Seq<(Seq<u8>, Bencode)>, key: Seq<u8>)
    requires
        forall|i: int| 0 <= i < entries.len() ==> (#[trigger] entries[i]).0 != key,
    ensures
        lookup(entries, key) is None,
{
    lemma_lookup(entries, key);
}

/// The components of a path that was written as a list are read back as
/// they were.
pub proof fn lemma_path_read_back(path: Seq<Seq<char>>, from: int)
    requires
        0 <= from <= path.len(),
    ensures
        path_from(path_value(path)->List_0, from) == Ok::<Seq<Seq<char>>, SchemaError>(
            path.skip(from),
        ),
    decreases path.len() - from,
{
    let items = path_value(path)->List_0;
    if from < path.len() {
        assert(items[from] == text_value(path[from]));
        lemma_text_of_encoded(path[from]);
        lemma_path_read_back(path, from + 1);
        assert(seq![path[from]] + path.skip(from + 1) =~= path.skip(from));
    } else {
        assert(path.skip(from) =~= Seq::<Seq<char>>::empty());
    }
}

/// A file that was written as a dictionary is read back as it was.
pub proof fn lemma_file_read_back(f: FileInfoView)
    requires
        fits_integer(f.length),
    ensures
        file_of(file_value(f)) == Ok::<FileInfoView, SchemaError>(f),
{
    let entries = file_value(f)->Dict_0;
    lemma_keys_differ(Field::Length, Field::Path);
    assert(entries[0].0 == Field::Length.key() && entries[1].0 == Field::Path.key());
    lemma_lookup_unique(entries, 0);
    lemma_lookup_unique(entries, 1);
    lemma_path_read_back(f.path, 0);
    assert(f.path.skip(0) =~= f.path);
}

/// The files that were written as a list are read back as they were.
pub proof fn lemma_files_read_back(files: Seq<FileInfoView>, from: int)
    requires
        0 <= from <= files.len(),
        forall|i: int| 0 <= i < files.len() ==> fits_integer((#[trigger] files[i]).length),
    ensures
        files_from(Seq::new(files.len(), |i: int| file_value(files[i])), from) == Ok::<
            Seq<FileInfoView>,
            SchemaError,
        >(files.skip(from)),
    decreases files.len() - from,
{
    let items = Seq::new(files.len(), |i: int| file_value(files[i]));
    if from < files.len() {
        assert(items[from] == file_value(files[from]));
        lemma_file_read_back(files[from]);
        lemma_files_read_back(files, from + 1);
        assert(seq![files[from]] + files.skip(from + 1) =~= files.skip(from));
    } else {
        assert(files.skip(from) =~= Seq::<FileInfoView>::empty());
    }
}

/// Reading inverts writing: an `info` dictionary that was written as a
/// bencode value is read back as it was, for every dictionary whose lengths
/// fit a bencode integer.
pub proof fn lemma_info_read_back(i: InfoView)
    requires
        i.encodable(),
    ensures
        info_of(info_value(i)) == Ok::<InfoView, SchemaError>(i),
{
    let entries = info_value(i)->Dict_0;
    let layout = layout_entry(i.file_tree).0;
    lemma_keys_differ(Field::Length, Field::Files);
    lemma_keys_differ(Field::Length, Field::Name);
    lemma_keys_differ(Field::Length, Field::PieceLength);
    lemma_keys_differ(Field::Length, Field::Pieces);
    lemma_keys_differ(Field::Files, Field::Name);
    lemma_keys_differ(Field::Files, Field::PieceLength);
    lemma_keys_differ(Field::Files, Field::Pieces);
    lemma_keys_differ(Field::Name, Field::PieceLength);
    lemma_keys_differ(Field::Name, Field::Pieces);
    lemma_keys_differ(Field::PieceLength, Field::Pieces);
    assert(entries[0].0 == layout);
    assert(entries[1].0 == Field::Name.key());
    assert(entries[2].0 == Field::PieceLength.key());
    assert(entries[3].0 == Field::Pieces.key());
    assert(layout == Field::Length.key() || layout == Field::Files.key());
    assert(unique_keys(entries));
    lemma_lookup_unique(entries, 0);
    lemma_lookup_unique(entries, 1);
    lemma_lookup_unique(entries, 2);
    lemma_lookup_unique(entries, 3);
    lemma_text_of_encoded(i.name);
    match i.file_tree {
        FileTreeView::SingleFile { length } => {
            lemma_lookup_absent(entries, Field::Files.key());
        },
        FileTreeView::MultiFile { files } => {
            lemma_lookup_absent(entries, Field::Length.key());
            lemma_files_read_back(files, 0);
            assert(files.skip(0) =~= files);
        },
    }
}

/// The info hash depends on what the dictionary holds and on nothing
/// else: dictionaries that hold the same have the same hash.
pub proof fn lemma_info_hash_is_determined(a: Info, b: Info)
    requires
        a@ == b@,
    ensures
        a@.info_hash() == b@.info_hash(),
{
}

/// Where the `info` dictionary of a file holds what an `Info` holds and
/// nothing more, in whatever order, the hash taken of the file's dictionary
/// is the hash of the `Info`.
pub proof fn lemma_info_hashes_agree(held: Bencode, i: InfoView)
    requires
        same_content(held, info_value(i)),
    ensures
        sha1_digest(encode_value(held)) == i.info_hash(),
{
    lemma_encoding_ignores_order(held, info_value(i));
}

} // verus!
