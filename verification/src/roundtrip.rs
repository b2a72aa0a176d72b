//! What holds between writing and reading: a value that is written and
//! read back is the same value.

use crate::decimal::{
    decimal, digit_run_end, digits_value, is_canonical_digits, is_digit, lemma_decimal_is_canonical,
    lemma_decimal_of_digits_value, lemma_digit_run_end, lemma_digit_run_end_is,
    lemma_digits_value_of_decimal, signed_decimal,
};
use crate::grammar::{
    canonical, encode_value, is_canonical, keys_of, lemma_parse_advances, nesting,
    nesting_of_entries, nesting_of_items, parse_bytes, parse_entries, parse_integer, parse_items,
    parse_unbounded, parse_value, serialize, serialize_bytes, serialize_entries, serialize_integer,
    serialize_items, DecodeError, COLON, DICT_START, END, INTEGER_START, LIST_START, MINUS,
};
use crate::order::lemma_key_order_of_ascending;
use crate::value::Bencode;
use vstd::prelude::*;

verus! {

/// Whether the bytes of `s` from `pos` on begin with `text`.
pub open spec fn holds_at(s: Seq<u8>, pos: int, text: Seq<u8>) -> bool {
    &&& 0 <= pos
    &&& pos + text.len() <= s.len()
    &&& s.subrange(pos, pos + text.len()) == text
}

/// Where `a` followed by `b` stands, `a` stands, and `b` behind it.
pub proof fn lemma_holds_at_split(s: Seq<u8>, pos: int, a: Seq<u8>, b: Seq<u8>)
    requires
        holds_at(s, pos, a + b),
    ensures
        holds_at(s, pos, a),
        holds_at(s, pos + a.len(), b),
{
    let whole = s.subrange(pos, pos + (a + b).len());
    assert forall|i: int| 0 <= i < a.len() implies s.subrange(pos, pos + a.len())[i] == a[i] by {
        assert(whole[i] == (a + b)[i]);
    }
    assert(s.subrange(pos, pos + a.len()) =~= a);
    assert forall|i: int| 0 <= i < b.len() implies s.subrange(
        pos + a.len(),
        pos + a.len() + b.len(),
    )[i] == b[i] by {
        assert(whole[a.len() + i] == (a + b)[a.len() + i]);
    }
    assert(s.subrange(pos + a.len(), pos + a.len() + b.len()) =~= b);
}

/// Where a text stands, each of its bytes stands at its place.
pub proof fn lemma_holds_at_index(s: Seq<u8>, pos: int, text: Seq<u8>, i: int)
    requires
        holds_at(s, pos, text),
        0 <= i < text.len(),
    ensures
        s[pos + i] == text[i],
{
    assert(s.subrange(pos, pos + text.len())[i] == text[i]);
}

/// Where the decimal text of `n` stands, followed by a byte that is no
/// digit, the run of digits is that text.
proof fn lemma_digit_run_of_decimal(s: Seq<u8>, pos: int, n: nat)
    requires
        holds_at(s, pos, decimal(n)),
        pos + decimal(n).len() < s.len(),
        !is_digit(s[pos + decimal(n).len()]),
    ensures
        digit_run_end(s, pos) == pos + decimal(n).len(),
        s.subrange(pos, pos + decimal(n).len()) == decimal(n),
        digits_value(s.subrange(pos, pos + decimal(n).len())) == n,
{
    lemma_decimal_is_canonical(n);
    lemma_digits_value_of_decimal(n);
    lemma_digit_run_end_is(s, pos, pos + decimal(n).len());
}

/// Where the bytes of an integer stand, the grammar reads that integer.
pub proof fn lemma_parse_integer_written(s: Seq<u8>, pos: int, v: i64)
    requires
        holds_at(s, pos, serialize_integer(v)),
    ensures
        parse_integer(s, pos) == Ok::<(i64, int), DecodeError>(
            (v, pos + serialize_integer(v).len()),
        ),
{
    let text = serialize_integer(v);
    let number = signed_decimal(v as int);
    let magnitude: nat = if v < 0 {
        (-v) as nat
    } else {
        v as nat
    };
    let digits = decimal(magnitude);
    lemma_decimal_is_canonical(magnitude);
    assert(text =~= seq![INTEGER_START] + (number + seq![END]));
    lemma_holds_at_split(s, pos, seq![INTEGER_START], number + seq![END]);
    lemma_holds_at_split(s, pos + 1, number, seq![END]);
    lemma_holds_at_index(s, pos + 1 + number.len(), seq![END], 0);
    let start = if v < 0 {
        pos + 2
    } else {
        pos + 1
    };
    if v < 0 {
        assert(number =~= seq![MINUS] + digits);
        lemma_holds_at_split(s, pos + 1, seq![MINUS], digits);
        lemma_holds_at_index(s, pos + 1, seq![MINUS], 0);
    } else {
        lemma_holds_at_index(s, pos + 1, digits, 0);
        assert(is_digit(digits[0]));
    }
    assert(start + digits.len() == pos + 1 + number.len());
    lemma_digit_run_of_decimal(s, start, magnitude);
}

/// An integer has one text: the bytes that are read as an integer are the
/// bytes that this integer is written as. So no integer is read from text
/// with a leading zero or from `-0`.
pub proof fn lemma_integer_text_is_canonical(s: Seq<u8>, pos: int)
    requires
        0 <= pos < s.len(),
        s[pos] == INTEGER_START,
    ensures
        parse_integer(s, pos) matches Ok((v, end)) ==> s.subrange(pos, end) == serialize_integer(
            v,
        ),
{
    match parse_integer(s, pos) {
        Ok((v, end)) => {
            let negative = pos + 1 < s.len() && s[pos + 1] == MINUS;
            let start = if negative {
                pos + 2
            } else {
                pos + 1
            };
            lemma_digit_run_end(s, start);
            let stop = digit_run_end(s, start);
            let digits = s.subrange(start, stop);
            assert(is_canonical_digits(digits));
            lemma_decimal_of_digits_value(digits);
            assert(s.subrange(pos, end) =~= serialize_integer(v));
        },
        Err(e) => {},
    }
}

/// Where the bytes of a byte string stand, the grammar reads that string.
pub proof fn lemma_parse_bytes_written(s: Seq<u8>, pos: int, b: Seq<u8>)
    requires
        holds_at(s, pos, serialize_bytes(b)),
    ensures
        parse_bytes(s, pos) == Ok::<(Seq<u8>, int), DecodeError>(
            (b, pos + serialize_bytes(b).len()),
        ),
        is_digit(s[pos]),
{
    let digits = decimal(b.len());
    lemma_decimal_is_canonical(b.len());
    assert(serialize_bytes(b) =~= digits + (seq![COLON] + b));
    lemma_holds_at_split(s, pos, digits, seq![COLON] + b);
    lemma_holds_at_split(s, pos + digits.len(), seq![COLON], b);
    lemma_holds_at_index(s, pos + digits.len(), seq![COLON], 0);
    lemma_holds_at_index(s, pos, digits, 0);
    assert(is_digit(digits[0]));
    lemma_digit_run_of_decimal(s, pos, b.len());
}

/// The bytes of a value are at least two, and the first tells its kind: it
/// is never the `e` that closes a list.
pub proof fn lemma_serialize_first_byte(v: Bencode)
    ensures
        serialize(v).len() >= 2,
        v is Integer ==> serialize(v)[0] == INTEGER_START,
        v is Bytes ==> is_digit(serialize(v)[0]),
        v is List ==> serialize(v)[0] == LIST_START,
        v is Dict ==> serialize(v)[0] == DICT_START,
{
    match v {
        Bencode::Integer(i) => {
            lemma_decimal_is_canonical(0);
        },
        Bencode::Bytes(b) => {
            lemma_decimal_is_canonical(b.len());
            assert(serialize(v)[0] == decimal(b.len())[0]);
            assert(is_digit(decimal(b.len())[0]));
        },
        Bencode::List(items) => {},
        Bencode::Dict(entries) => {},
    }
}

/// Where the bytes of a value stand, the grammar reads that value, given
/// room for its nesting.
pub proof fn lemma_parse_written(s: Seq<u8>, pos: int, v: Bencode, depth: nat)
    requires
        holds_at(s, pos, serialize(v)),
        nesting(v) <= depth,
    ensures
        parse_value(s, pos, depth) == Ok::<(Bencode, int), DecodeError>(
            (v, pos + serialize(v).len()),
        ),
    decreases v, 0int,
{
    lemma_serialize_first_byte(v);
    lemma_holds_at_index(s, pos, serialize(v), 0);
    match v {
        Bencode::Integer(i) => {
            lemma_parse_integer_written(s, pos, i);
        },
        Bencode::Bytes(b) => {
            lemma_parse_bytes_written(s, pos, b);
        },
        Bencode::List(items) => {
            let body = serialize_items(items, 0) + seq![END];
            assert(serialize(v) =~= seq![LIST_START] + body);
            lemma_holds_at_split(s, pos, seq![LIST_START], body);
            lemma_parse_written_items(s, pos + 1, items, 0, (depth - 1) as nat);
            assert(items.skip(0) =~= items);
        },
        Bencode::Dict(entries) => {
            let body = serialize_entries(entries, 0) + seq![END];
            assert(serialize(v) =~= seq![DICT_START] + body);
            lemma_holds_at_split(s, pos, seq![DICT_START], body);
            lemma_parse_written_entries(s, pos + 1, entries, 0, (depth - 1) as nat);
            assert(entries.skip(0) =~= entries);
        },
    }
}

/// Where the bytes of the items from `from` on stand, closed by `e`, the
/// grammar reads those items.
pub proof fn lemma_parse_written_items(
    s: Seq<u8>,
    pos: int,
    items: Seq<Bencode>,
    from: int,
    depth: nat,
)
    requires
        0 <= from <= items.len(),
        holds_at(s, pos, serialize_items(items, from) + seq![END]),
        nesting_of_items(items, from) <= depth,
    ensures
        parse_items(s, pos, depth) == Ok::<(Seq<Bencode>, int), DecodeError>(
            (items.skip(from), pos + serialize_items(items, from).len() + 1),
        ),
    decreases items, items.len() - from,
{
    let text = serialize_items(items, from) + seq![END];
    lemma_holds_at_index(s, pos, text, 0);
    if from == items.len() {
        assert(items.skip(from) =~= Seq::<Bencode>::empty());
    } else {
        let first = serialize(items[from]);
        let rest = serialize_items(items, from + 1) + seq![END];
        lemma_serialize_first_byte(items[from]);
        assert(text =~= first + rest);
        assert(text[0] == first[0]);
        lemma_holds_at_split(s, pos, first, rest);
        lemma_parse_written(s, pos, items[from], depth);
        lemma_parse_written_items(s, pos + first.len(), items, from + 1, depth);
        assert(seq![items[from]] + items.skip(from + 1) =~= items.skip(from));
    }
}

/// Where the bytes of the entries from `from` on stand, closed by `e`, the
/// grammar reads those entries.
pub proof fn lemma_parse_written_entries(
    s: Seq<u8>,
    pos: int,
    entries: Seq<(Seq<u8>, Bencode)>,
    from: int,
    depth: nat,
)
    requires
        0 <= from <= entries.len(),
        holds_at(s, pos, serialize_entries(entries, from) + seq![END]),
        nesting_of_entries(entries, from) <= depth,
    ensures
        parse_entries(s, pos, depth) == Ok::<(Seq<(Seq<u8>, Bencode)>, int), DecodeError>(
            (entries.skip(from), pos + serialize_entries(entries, from).len() + 1),
        ),
    decreases entries, entries.len() - from,
{
    let text = serialize_entries(entries, from) + seq![END];
    lemma_holds_at_index(s, pos, text, 0);
    if from == entries.len() {
        assert(entries.skip(from) =~= Seq::<(Seq<u8>, Bencode)>::empty());
    } else {
        let key = serialize_bytes(entries[from].0);
        let value = serialize(entries[from].1);
        let rest = serialize_entries(entries, from + 1) + seq![END];
        lemma_decimal_is_canonical(entries[from].0.len());
        lemma_serialize_first_byte(entries[from].1);
        assert(text =~= key + (value + rest));
        assert(text[0] == key[0]);
        assert(key[0] == decimal(entries[from].0.len())[0]);
        lemma_holds_at_split(s, pos, key, value + rest);
        lemma_holds_at_split(s, pos + key.len(), value, rest);
        lemma_parse_bytes_written(s, pos, entries[from].0);
        lemma_parse_written(s, pos + key.len(), entries[from].1, depth);
        lemma_parse_written_entries(s, pos + key.len() + value.len(), entries, from + 1, depth);
        assert(seq![entries[from]] + entries.skip(from + 1) =~= entries.skip(from));
    }
}

/// A value whose dictionaries are in order already is its own canonical
/// form.
pub proof fn lemma_canonical_of_canonical(v: Bencode)
    requires
        is_canonical(v),
    ensures
        canonical(v) == v,
    decreases v,
{
    match v {
        Bencode::Integer(i) => {},
        Bencode::Bytes(b) => {},
        Bencode::List(items) => {
            let written = canonical(v)->List_0;
            assert forall|i: int| 0 <= i < items.len() implies written[i] == items[i] by {
                lemma_canonical_of_canonical(items[i]);
            }
            assert(written =~= items);
        },
        Bencode::Dict(entries) => {
            let written = canonical(v)->Dict_0;
            lemma_key_order_of_ascending(keys_of(entries));
            assert forall|k: int| 0 <= k < entries.len() implies written[k] == entries[k] by {
                lemma_canonical_of_canonical(entries[k].1);
            }
            assert(written =~= entries);
        },
    }
}

/// A value is never nested deeper than its bytes are long.
pub proof fn lemma_nesting_fits(v: Bencode)
    ensures
        nesting(v) <= serialize(v).len(),
    decreases v, 0int,
{
    match v {
        Bencode::Integer(i) => {},
        Bencode::Bytes(b) => {},
        Bencode::List(items) => {
            lemma_nesting_of_items_fits(items, 0);
        },
        Bencode::Dict(entries) => {
            lemma_nesting_of_entries_fits(entries, 0);
        },
    }
}

/// The items from `from` on are never nested deeper than their bytes are
/// long.
pub proof fn lemma_nesting_of_items_fits(items: Seq<Bencode>, from: int)
    ensures
        nesting_of_items(items, from) <= serialize_items(items, from).len(),
    decreases items, items.len() - from,
{
    if 0 <= from < items.len() {
        lemma_nesting_fits(items[from]);
        lemma_nesting_of_items_fits(items, from + 1);
    }
}

/// The entries from `from` on are never nested deeper than their bytes
/// are long.
pub proof fn lemma_nesting_of_entries_fits(entries: Seq<(Seq<u8>, Bencode)>, from: int)
    ensures
        nesting_of_entries(entries, from) <= serialize_entries(entries, from).len(),
    decreases entries, entries.len() - from,
{
    if 0 <= from < entries.len() {
        lemma_nesting_fits(entries[from].1);
        lemma_nesting_of_entries_fits(entries, from + 1);
    }
}

/// Reading what was written gives the value back, with each dictionary in
/// ascending order of its keys, and takes up exactly the bytes written:
/// whatever follows them is left alone. The depth allowed is the length of
/// the input, which is no limit at all.
pub proof fn lemma_decode_of_encode(v: Bencode, rest: Seq<u8>)
    ensures
        parse_unbounded(encode_value(v) + rest, 0) == Ok::<
            (Bencode, int),
            DecodeError,
        >((canonical(v), encode_value(v).len() as int)),
{
    let written = encode_value(v);
    let s = written + rest;
    assert(s.subrange(0, written.len() as int) =~= written);
    lemma_nesting_fits(canonical(v));
    lemma_parse_written(s, 0, canonical(v), s.len());
}

/// Decoding inverts encoding: for every value whose dictionaries have their
/// keys in strictly ascending order, reading its canonical bytes gives
/// exactly that value and takes up exactly those bytes, whatever follows
/// them in the input.
pub proof fn lemma_decode_inverts_encode(v: Bencode, rest: Seq<u8>)
    requires
        is_canonical(v),
    ensures
        parse_unbounded(encode_value(v) + rest, 0) == Ok::<
            (Bencode, int),
            DecodeError,
        >((v, encode_value(v).len() as int)),
{
    lemma_canonical_of_canonical(v);
    lemma_decode_of_encode(v, rest);
}

/// The same under a limit on nesting: a value in canonical order that is
/// nested no deeper than `depth` is read back from its bytes unchanged.
pub proof fn lemma_bounded_decode_inverts_encode(v: Bencode, rest: Seq<u8>, depth: nat)
    requires
        is_canonical(v),
        nesting(v) <= depth,
    ensures
        parse_value(encode_value(v) + rest, 0, depth) == Ok::<(Bencode, int), DecodeError>(
            (v, encode_value(v).len() as int),
        ),
{
    lemma_canonical_of_canonical(v);
    let written = encode_value(v);
    let s = written + rest;
    assert(s.subrange(0, written.len() as int) =~= written);
    lemma_parse_written(s, 0, v, depth);
}

/// With as much depth allowed as there are bytes left, nothing is ever
/// too deep.
pub proof fn lemma_depth_suffices(s: Seq<u8>, pos: int, depth: nat)
    requires
        depth >= s.len() - pos,
    ensures
        parse_value(s, pos, depth) != Err::<(Bencode, int), DecodeError>(
            DecodeError::NestingTooDeep,
        ),
        parse_items(s, pos, depth) != Err::<(Seq<Bencode>, int), DecodeError>(
            DecodeError::NestingTooDeep,
        ),
        parse_entries(s, pos, depth) != Err::<(Seq<(Seq<u8>, Bencode)>, int), DecodeError>(
            DecodeError::NestingTooDeep,
        ),
    decreases s.len() - pos, 2int,
{
    if 0 <= pos < s.len() {
        if s[pos] == LIST_START {
            lemma_depth_suffices(s, pos + 1, (depth - 1) as nat);
        }
        if s[pos] == DICT_START {
            lemma_depth_suffices(s, pos + 1, (depth - 1) as nat);
        }
        lemma_depth_suffices_rest(s, pos, depth);
    }
}

/// The part of `lemma_depth_suffices` that is about what follows the
/// first item of a list or the first entry of a dictionary.
proof fn lemma_depth_suffices_rest(s: Seq<u8>, pos: int, depth: nat)
    requires
        0 <= pos < s.len(),
        depth >= s.len() - pos,
        parse_value(s, pos, depth) != Err::<(Bencode, int), DecodeError>(
            DecodeError::NestingTooDeep,
        ),
    ensures
        parse_items(s, pos, depth) != Err::<(Seq<Bencode>, int), DecodeError>(
            DecodeError::NestingTooDeep,
        ),
        parse_entries(s, pos, depth) != Err::<(Seq<(Seq<u8>, Bencode)>, int), DecodeError>(
            DecodeError::NestingTooDeep,
        ),
    decreases s.len() - pos, 1int,
{
    if s[pos] != END {
        match parse_value(s, pos, depth) {
            Ok((item, next)) => {
                if pos < next <= s.len() {
                    lemma_depth_suffices(s, next, depth);
                }
            },
            Err(e) => {},
        }
        if is_digit(s[pos]) {
            match parse_bytes(s, pos) {
                Ok((key, at)) => {
                    if pos < at < s.len() {
                        lemma_depth_suffices(s, at, depth);
                        match parse_value(s, at, depth) {
                            Ok((value, next)) => {
                                if at < next <= s.len() {
                                    lemma_depth_suffices(s, next, depth);
                                }
                            },
                            Err(e) => {},
                        }
                    }
                },
                Err(e) => {},
            }
        }
    }
}

/// Allowing more depth changes no result but `NestingTooDeep`: what is
/// read under a limit is read the same way under any greater one.
pub proof fn lemma_depth_monotone(s: Seq<u8>, pos: int, depth: nat, more: nat)
    requires
        depth <= more,
    ensures
        parse_value(s, pos, depth) != Err::<(Bencode, int), DecodeError>(
            DecodeError::NestingTooDeep,
        ) ==> parse_value(s, pos, more) == parse_value(s, pos, depth),
        parse_items(s, pos, depth) != Err::<(Seq<Bencode>, int), DecodeError>(
            DecodeError::NestingTooDeep,
        ) ==> parse_items(s, pos, more) == parse_items(s, pos, depth),
        parse_entries(s, pos, depth) != Err::<(Seq<(Seq<u8>, Bencode)>, int), DecodeError>(
            DecodeError::NestingTooDeep,
        ) ==> parse_entries(s, pos, more) == parse_entries(s, pos, depth),
    decreases s.len() - pos, 2int,
{
    if 0 <= pos < s.len() {
        if (s[pos] == LIST_START || s[pos] == DICT_START) && depth > 0 {
            lemma_depth_monotone(s, pos + 1, (depth - 1) as nat, (more - 1) as nat);
        }
        lemma_depth_monotone_rest(s, pos, depth, more);
    }
}

/// The part of `lemma_depth_monotone` that is about what follows the first
/// item of a list or the first entry of a dictionary.
proof fn lemma_depth_monotone_rest(s: Seq<u8>, pos: int, depth: nat, more: nat)
    requires
        0 <= pos < s.len(),
        depth <= more,
        parse_value(s, pos, depth) != Err::<(Bencode, int), DecodeError>(
            DecodeError::NestingTooDeep,
        ) ==> parse_value(s, pos, more) == parse_value(s, pos, depth),
    ensures
        parse_items(s, pos, depth) != Err::<(Seq<Bencode>, int), DecodeError>(
            DecodeError::NestingTooDeep,
        ) ==> parse_items(s, pos, more) == parse_items(s, pos, depth),
        parse_entries(s, pos, depth) != Err::<(Seq<(Seq<u8>, Bencode)>, int), DecodeError>(
            DecodeError::NestingTooDeep,
        ) ==> parse_entries(s, pos, more) == parse_entries(s, pos, depth),
    decreases s.len() - pos, 1int,
{
    if s[pos] != END {
        match parse_value(s, pos, depth) {
            Ok((item, next)) => {
                if pos < next <= s.len() {
                    lemma_depth_monotone(s, next, depth, more);
                }
            },
            Err(e) => {},
        }
        if is_digit(s[pos]) {
            match parse_bytes(s, pos) {
                Ok((key, at)) => {
                    if pos < at < s.len() {
                        lemma_depth_monotone(s, at, depth, more);
                        match parse_value(s, at, depth) {
                            Ok((value, next)) => {
                                if at < next <= s.len() {
                                    lemma_depth_monotone(s, next, depth, more);
                                }
                            },
                            Err(e) => {},
                        }
                    }
                },
                Err(e) => {},
            }
        }
    }
}

/// Whether `s` and `t` hold the same bytes from `from` up to `to`.
pub open spec fn agree(s: Seq<u8>, t: Seq<u8>, from: int, to: int) -> bool {
    &&& 0 <= from <= to
    &&& to <= s.len()
    &&& to <= t.len()
    &&& forall|i: int| from <= i < to ==> s[i] == t[i]
}

/// Where two inputs agree up to and with the byte that ends a run of
/// digits, the run is the same in both.
proof fn lemma_digit_run_agrees(s: Seq<u8>, t: Seq<u8>, from: int, to: int)
    requires
        agree(s, t, from, to),
        digit_run_end(s, from) < to,
    ensures
        digit_run_end(t, from) == digit_run_end(s, from),
        t.subrange(from, digit_run_end(s, from)) == s.subrange(from, digit_run_end(s, from)),
{
    lemma_digit_run_end(s, from);
    let stop = digit_run_end(s, from);
    assert(t.subrange(from, stop) =~= s.subrange(from, stop));
    lemma_digit_run_end_is(t, from, stop);
}

/// Decoding looks at the bytes of the value and at no others: an input
/// that holds the same bytes where the value stands, and whatever else
/// before and behind, gives the same value at the same place.
pub proof fn lemma_parse_ignores_rest(s: Seq<u8>, t: Seq<u8>, pos: int, depth: nat)
    requires
        0 <= pos,
    ensures
        parse_value(s, pos, depth) matches Ok((_, end)) && agree(s, t, pos, end) ==> parse_value(
            t,
            pos,
            depth,
        ) == parse_value(s, pos, depth),
        parse_items(s, pos, depth) matches Ok((_, end)) && agree(s, t, pos, end) ==> parse_items(
            t,
            pos,
            depth,
        ) == parse_items(s, pos, depth),
        parse_entries(s, pos, depth) matches Ok((_, end)) && agree(s, t, pos, end)
            ==> parse_entries(t, pos, depth) == parse_entries(s, pos, depth),
        pos < s.len() && is_digit(s[pos]) ==> (parse_bytes(s, pos) matches Ok((_, end)) && agree(
            s,
            t,
            pos,
            end,
        ) ==> parse_bytes(t, pos) == parse_bytes(s, pos)),
    decreases s.len() - pos, 2int,
{
    if pos < s.len() {
        lemma_parse_advances(s, pos, depth);
        match parse_value(s, pos, depth) {
            Ok((v, end)) => {
                if agree(s, t, pos, end) {
                    assert(s[pos] == t[pos]);
                    if s[pos] == INTEGER_START {
                        let negative = pos + 1 < s.len() && s[pos + 1] == MINUS;
                        let start = if negative {
                            pos + 2
                        } else {
                            pos + 1
                        };
                        assert(s[pos + 1] == t[pos + 1]);
                        lemma_digit_run_agrees(s, t, start, end);
                        assert(s[end - 1] == t[end - 1]);
                    } else if s[pos] == LIST_START || s[pos] == DICT_START {
                        lemma_parse_ignores_rest(s, t, pos + 1, (depth - 1) as nat);
                    }
                }
            },
            Err(e) => {},
        }
        if is_digit(s[pos]) {
            match parse_bytes(s, pos) {
                Ok((b, end)) => {
                    if agree(s, t, pos, end) {
                        lemma_digit_run_end(s, pos);
                        lemma_digit_run_agrees(s, t, pos, end);
                        let colon = digit_run_end(s, pos);
                        assert(s[colon] == t[colon]);
                        assert(t.subrange(colon + 1, end) =~= s.subrange(colon + 1, end));
                    }
                },
                Err(e) => {},
            }
        }
        lemma_parse_ignores_rest_of_items(s, t, pos, depth);
    }
}

/// The part of `lemma_parse_ignores_rest` that is about what follows the
/// first item of a list or the first entry of a dictionary.
proof fn lemma_parse_ignores_rest_of_items(s: Seq<u8>, t: Seq<u8>, pos: int, depth: nat)
    requires
        0 <= pos < s.len(),
        parse_value(s, pos, depth) matches Ok((_, end)) && agree(s, t, pos, end) ==> parse_value(
            t,
            pos,
            depth,
        ) == parse_value(s, pos, depth),
        is_digit(s[pos]) ==> (parse_bytes(s, pos) matches Ok((_, end)) && agree(s, t, pos, end)
            ==> parse_bytes(t, pos) == parse_bytes(s, pos)),
    ensures
        parse_items(s, pos, depth) matches Ok((_, end)) && agree(s, t, pos, end) ==> parse_items(
            t,
            pos,
            depth,
        ) == parse_items(s, pos, depth),
        parse_entries(s, pos, depth) matches Ok((_, end)) && agree(s, t, pos, end)
            ==> parse_entries(t, pos, depth) == parse_entries(s, pos, depth),
    decreases s.len() - pos, 1int,
{
    lemma_parse_advances(s, pos, depth);
    match parse_items(s, pos, depth) {
        Ok((items, end)) => {
            if agree(s, t, pos, end) {
                assert(s[pos] == t[pos]);
                if s[pos] != END {
                    let next = parse_value(s, pos, depth)->Ok_0.1;
                    lemma_parse_advances(s, next, depth);
                    assert(agree(s, t, pos, next));
                    assert(agree(s, t, next, end));
                    lemma_parse_ignores_rest(s, t, next, depth);
                }
            }
        },
        Err(e) => {},
    }
    match parse_entries(s, pos, depth) {
        Ok((entries, end)) => {
            if agree(s, t, pos, end) {
                assert(s[pos] == t[pos]);
                if s[pos] != END {
                    let at = parse_bytes(s, pos)->Ok_0.1;
                    lemma_parse_advances(s, at, depth);
                    let next = parse_value(s, at, depth)->Ok_0.1;
                    lemma_parse_advances(s, next, depth);
                    assert(agree(s, t, pos, at));
                    assert(agree(s, t, at, next));
                    assert(agree(s, t, next, end));
                    lemma_parse_ignores_rest(s, t, at, depth);
                    lemma_parse_ignores_rest(s, t, next, depth);
                }
            }
        },
        Err(e) => {},
    }
}

} // verus!
