//! The bencode grammar as mathematics: what a run of bytes decodes to, and
//! what bytes a value is written as.
//!
//! ```text
//! value   = integer | string | list | dict
//! integer = "i" ["-"] digits "e"      no leading zero but in "0", no "-0"
//! string  = digits ":" bytes          as many bytes as the digits say
//! list    = "l" { value } "e"
//! dict    = "d" { string value } "e"
//! ```

use crate::decimal::{
    decimal, digit_run_end, digits_value, is_digit, lemma_digit_run_end, signed_decimal,
};
use crate::order::{key_order, strictly_ascending};
use crate::value::Bencode;
use vstd::prelude::*;

verus! {

/// `i`, the byte that opens an integer.
pub const INTEGER_START: u8 = 105;

/// `l`, the byte that opens a list.
pub const LIST_START: u8 = 108;

/// `d`, the byte that opens a dictionary.
pub const DICT_START: u8 = 100;

/// `e`, the byte that closes an integer, a list or a dictionary.
pub const END: u8 = 101;

/// `:`, the byte between a string's length and its bytes.
pub const COLON: u8 = 58;

/// `-`, the sign of a negative integer.
pub const MINUS: u8 = 45;

/// The digit `0`.
pub const ZERO: u8 = 48;

/// Why a run of bytes is not a bencode value.
#[derive(Debug, Clone, Copy, PartialEq, Eq, Structural)]
pub enum DecodeError {
    /// The value starts with a byte that starts no value, or there is no
    /// byte to start one.
    InvalidPrefix,
    /// The digits of a string's length are not followed by `:`.
    MissingColon,
    /// A string's length reaches past the end of the input.
    InvalidLength,
    /// An integer is not closed by `e`, holds something other than digits,
    /// has a leading zero, is `-0`, or does not fit 64 bits.
    InvalidInteger,
    /// The input ends inside a list.
    UnterminatedList,
    /// The input ends inside a dictionary.
    UnterminatedDict,
    /// A dictionary key is not a byte string.
    NonStringKey,
    /// Lists and dictionaries are nested deeper than the caller allowed.
    NestingTooDeep,
}

/// What decoding gives: the value and the index just past it.
pub type Parsed<T> = Result<(T, int), DecodeError>;

/// The integer that starts at `pos`, where `s[pos]` is `i`: an optional
/// `-`, the whole run of digits behind it, and `e`. No digit, a zero in
/// front of other digits, `-0`, and a number that does not fit 64 bits are
/// refused.
pub open spec fn parse_integer(s: Seq<u8>, pos: int) -> Parsed<i64> {
    let negative = pos + 1 < s.len() && s[pos + 1] == MINUS;
    let start = if negative {
        pos + 2
    } else {
        pos + 1
    };
    let end = digit_run_end(s, start);
    let digits = s.subrange(start, end);
    let magnitude = digits_value(digits);
    if end >= s.len() || s[end] != END {
        Err(DecodeError::InvalidInteger)
    } else if digits.len() == 0 || (digits.len() > 1 && digits[0] == ZERO) {
        Err(DecodeError::InvalidInteger)
    } else if negative && magnitude == 0 {
        Err(DecodeError::InvalidInteger)
    } else if negative && magnitude > 0x8000_0000_0000_0000 {
        Err(DecodeError::InvalidInteger)
    } else if !negative && magnitude > 0x7fff_ffff_ffff_ffff {
        Err(DecodeError::InvalidInteger)
    } else if negative {
        Ok(((-magnitude) as i64, end + 1))
    } else {
        Ok((magnitude as i64, end + 1))
    }
}

/// The byte string that starts at `pos`, where `s[pos]` is a digit. The
/// length is the whole run of digits there, which may begin with zeros, and
/// has to be followed by `:`; a length that is more than the bytes behind
/// the `:` is refused, and nothing is read short.
pub open spec fn parse_bytes(s: Seq<u8>, pos: int) -> Parsed<Seq<u8>> {
    let colon = digit_run_end(s, pos);
    let len = digits_value(s.subrange(pos, colon));
    if colon >= s.len() || s[colon] != COLON {
        Err(DecodeError::MissingColon)
    } else if colon + 1 + len > s.len() {
        Err(DecodeError::InvalidLength)
    } else {
        Ok((s.subrange(colon + 1, colon + 1 + len), colon + 1 + len))
    }
}

/// The value that starts at `pos`, with at most `depth` lists and
/// dictionaries inside one another.
pub open spec fn parse_value(s: Seq<u8>, pos: int, depth: nat) -> Parsed<Bencode>
    decreases s.len() - pos, 0int,
{
    if pos < 0 || pos >= s.len() {
        Err(DecodeError::InvalidPrefix)
    } else if s[pos] == INTEGER_START {
        match parse_integer(s, pos) {
            Ok((v, end)) => Ok((Bencode::Integer(v), end)),
            Err(e) => Err(e),
        }
    } else if is_digit(s[pos]) {
        match parse_bytes(s, pos) {
            Ok((b, end)) => Ok((Bencode::Bytes(b), end)),
            Err(e) => Err(e),
        }
    } else if s[pos] == LIST_START {
        if depth == 0 {
            Err(DecodeError::NestingTooDeep)
        } else {
            match parse_items(s, pos + 1, (depth - 1) as nat) {
                Ok((items, end)) => Ok((Bencode::List(items), end)),
                Err(e) => Err(e),
            }
        }
    } else if s[pos] == DICT_START {
        if depth == 0 {
            Err(DecodeError::NestingTooDeep)
        } else {
            match parse_entries(s, pos + 1, (depth - 1) as nat) {
                Ok((entries, end)) => Ok((Bencode::Dict(entries), end)),
                Err(e) => Err(e),
            }
        }
    } else {
        Err(DecodeError::InvalidPrefix)
    }
}

/// The value that starts at `pos`, however deep it is nested. The depth
/// allowed is the length of the input, under which nothing is ever too
/// deep.
pub open spec fn parse_unbounded(s: Seq<u8>, pos: int) -> Parsed<Bencode> {
    parse_value(s, pos, s.len())
}

/// The items of a list from `pos` up to and with the `e` that closes it.
pub open spec fn parse_items(s: Seq<u8>, pos: int, depth: nat) -> Parsed<Seq<Bencode>>
    decreases s.len() - pos, 1int,
{
    if pos < 0 || pos >= s.len() {
        Err(DecodeError::UnterminatedList)
    } else if s[pos] == END {
        Ok((Seq::empty(), pos + 1))
    } else {
        match parse_value(s, pos, depth) {
            Err(e) => Err(e),
            Ok((item, next)) => {
                if next <= pos || next > s.len() {
                    Err(DecodeError::UnterminatedList)
                } else {
                    with_first(item, parse_items(s, next, depth))
                }
            },
        }
    }
}

/// The entries of a dictionary from `pos` up to and with the `e` that
/// closes it. A key is told by its first byte: anything but a digit there
/// is no string.
pub open spec fn parse_entries(s: Seq<u8>, pos: int, depth: nat) -> Parsed<
    Seq<(Seq<u8>, Bencode)>,
>
    decreases s.len() - pos, 1int,
{
    if pos < 0 || pos >= s.len() {
        Err(DecodeError::UnterminatedDict)
    } else if s[pos] == END {
        Ok((Seq::empty(), pos + 1))
    } else if !is_digit(s[pos]) {
        Err(DecodeError::NonStringKey)
    } else {
        match parse_bytes(s, pos) {
            Err(e) => Err(e),
            Ok((key, at)) => {
                if at <= pos {
                    Err(DecodeError::UnterminatedDict)
                } else if at >= s.len() {
                    Err(DecodeError::UnterminatedDict)
                } else {
                    match parse_value(s, at, depth) {
                        Err(e) => Err(e),
                        Ok((value, next)) => {
                            if next <= at || next > s.len() {
                                Err(DecodeError::UnterminatedDict)
                            } else {
                                with_first((key, value), parse_entries(s, next, depth))
                            }
                        },
                    }
                }
            },
        }
    }
}

/// A value that is read takes up at least one byte and ends within the
/// input. So the tests on `next` and `at` in `parse_items` and
/// `parse_entries`, which are there to show that the definitions end,
/// never refuse anything.
pub proof fn lemma_parse_advances(s: Seq<u8>, pos: int, depth: nat)
    ensures
        parse_value(s, pos, depth) matches Ok((_, end)) ==> pos < end <= s.len(),
        parse_items(s, pos, depth) matches Ok((_, end)) ==> pos < end <= s.len(),
        parse_entries(s, pos, depth) matches Ok((_, end)) ==> pos < end <= s.len(),
        0 <= pos < s.len() && is_digit(s[pos]) ==> (parse_bytes(s, pos) matches Ok((_, end))
            ==> pos < end <= s.len()),
    decreases s.len() - pos, 2int,
{
    if 0 <= pos < s.len() {
        if s[pos] == INTEGER_START {
            if pos + 1 < s.len() && s[pos + 1] == MINUS {
                if pos + 2 <= s.len() {
                    lemma_digit_run_end(s, pos + 2);
                }
            } else {
                lemma_digit_run_end(s, pos + 1);
            }
        }
        if is_digit(s[pos]) {
            lemma_digit_run_end(s, pos);
        }
        if (s[pos] == LIST_START || s[pos] == DICT_START) && depth > 0 {
            lemma_parse_advances(s, pos + 1, (depth - 1) as nat);
        }
        lemma_parse_advances_rest(s, pos, depth);
    }
}

/// The part of `lemma_parse_advances` that is about what follows the first
/// item of a list or the first entry of a dictionary.
proof fn lemma_parse_advances_rest(s: Seq<u8>, pos: int, depth: nat)
    requires
        0 <= pos < s.len(),
    ensures
        parse_items(s, pos, depth) matches Ok((_, end)) ==> pos < end <= s.len(),
        parse_entries(s, pos, depth) matches Ok((_, end)) ==> pos < end <= s.len(),
    decreases s.len() - pos, 1int,
{
    if s[pos] != END {
        match parse_value(s, pos, depth) {
            Ok((item, next)) => {
                if pos < next <= s.len() {
                    lemma_parse_advances(s, next, depth);
                }
            },
            Err(e) => {},
        }
        if is_digit(s[pos]) {
            match parse_bytes(s, pos) {
                Ok((key, at)) => {
                    if pos < at < s.len() {
                        match parse_value(s, at, depth) {
                            Ok((value, next)) => {
                                if at < next <= s.len() {
                                    lemma_parse_advances(s, next, depth);
                                }
                            },
                            Err(e) => {},
                        }
                    }
                },
                Err(e) => {},
            }
        }
    }
}

/// `rest` with `first` put in front of what it decoded.
pub open spec fn with_first<T>(first: T, rest: Parsed<Seq<T>>) -> Parsed<Seq<T>> {
    match rest {
        Ok((items, end)) => Ok((seq![first] + items, end)),
        Err(e) => Err(e),
    }
}

/// `rest` with `before` put in front of what it decoded.
pub open spec fn with_prefix<T>(before: Seq<T>, rest: Parsed<Seq<T>>) -> Parsed<Seq<T>> {
    match rest {
        Ok((items, end)) => Ok((before + items, end)),
        Err(e) => Err(e),
    }
}

/// The bytes of a byte string: its length in decimal, `:`, its bytes.
pub open spec fn serialize_bytes(b: Seq<u8>) -> Seq<u8> {
    decimal(b.len()) + seq![COLON] + b
}

/// The bytes of an integer: `i`, its decimal text, `e`.
pub open spec fn serialize_integer(v: i64) -> Seq<u8> {
    seq![INTEGER_START] + signed_decimal(v as int) + seq![END]
}

/// The bytes of a value, dictionaries written in the order they are held.
pub open spec fn serialize(v: Bencode) -> Seq<u8>
    decreases v, 0int,
{
    match v {
        Bencode::Integer(i) => serialize_integer(i),
        Bencode::Bytes(b) => serialize_bytes(b),
        Bencode::List(items) => seq![LIST_START] + serialize_items(items, 0) + seq![END],
        Bencode::Dict(entries) => seq![DICT_START] + serialize_entries(entries, 0) + seq![END],
    }
}

/// The bytes of the items from index `from` on, one after another.
pub open spec fn serialize_items(items: Seq<Bencode>, from: int) -> Seq<u8>
    decreases items, items.len() - from,
{
    if 0 <= from < items.len() {
        serialize(items[from]) + serialize_items(items, from + 1)
    } else {
        Seq::empty()
    }
}

/// The bytes of the entries from index `from` on: each key as a byte
/// string, then its value.
pub open spec fn serialize_entries(entries: Seq<(Seq<u8>, Bencode)>, from: int) -> Seq<u8>
    decreases entries, entries.len() - from,
{
    if 0 <= from < entries.len() {
        serialize_bytes(entries[from].0) + serialize(entries[from].1) + serialize_entries(
            entries,
            from + 1,
        )
    } else {
        Seq::empty()
    }
}

/// The keys of a dictionary's entries.
pub open spec fn keys_of(entries: Seq<(Seq<u8>, Bencode)>) -> Seq<Seq<u8>> {
    Seq::new(entries.len(), |i: int| entries[i].0)
}

/// The value with every dictionary in it, at any depth, put in ascending
/// order of its keys; entries with equal keys keep their order.
pub open spec fn canonical(v: Bencode) -> Bencode
    decreases v,
{
    match v {
        Bencode::Integer(i) => v,
        Bencode::Bytes(b) => v,
        Bencode::List(items) => Bencode::List(
            Seq::new(
                items.len(),
                |i: int|
                    if 0 <= i < items.len() {
                        canonical(items[i])
                    } else {
                        v
                    },
            ),
        ),
        Bencode::Dict(entries) => {
            let order = key_order(keys_of(entries));
            Bencode::Dict(
                Seq::new(
                    entries.len(),
                    |k: int|
                        if 0 <= k < order.len() && 0 <= order[k] < entries.len() {
                            (entries[order[k]].0, canonical(entries[order[k]].1))
                        } else {
                            (Seq::empty(), v)
                        },
                ),
            )
        },
    }
}

/// Whether every dictionary in the value, at any depth, has its keys in
/// strictly ascending order, so that no key occurs twice.
pub open spec fn is_canonical(v: Bencode) -> bool
    decreases v,
{
    match v {
        Bencode::Integer(i) => true,
        Bencode::Bytes(b) => true,
        Bencode::List(items) => forall|i: int|
            0 <= i < items.len() ==> is_canonical(#[trigger] items[i]),
        Bencode::Dict(entries) => {
            &&& strictly_ascending(keys_of(entries))
            &&& forall|i: int| 0 <= i < entries.len() ==> is_canonical((#[trigger] entries[i]).1)
        },
    }
}

/// The canonical bytes of a value: every dictionary written in ascending
/// order of its keys, whatever the order in which it is held.
pub open spec fn encode_value(v: Bencode) -> Seq<u8> {
    serialize(canonical(v))
}

/// How many lists and dictionaries lie inside one another in the value:
/// zero for an integer or a string.
pub open spec fn nesting(v: Bencode) -> nat
    decreases v, 0int,
{
    match v {
        Bencode::Integer(i) => 0,
        Bencode::Bytes(b) => 0,
        Bencode::List(items) => 1 + nesting_of_items(items, 0),
        Bencode::Dict(entries) => 1 + nesting_of_entries(entries, 0),
    }
}

/// The deepest nesting among the items from index `from` on.
pub open spec fn nesting_of_items(items: Seq<Bencode>, from: int) -> nat
    decreases items, items.len() - from,
{
    if 0 <= from < items.len() {
        let first = nesting(items[from]);
        let rest = nesting_of_items(items, from + 1);
        if first >= rest {
            first
        } else {
            rest
        }
    } else {
        0
    }
}

/// The deepest nesting among the values of the entries from index `from` on.
pub open spec fn nesting_of_entries(entries: Seq<(Seq<u8>, Bencode)>, from: int) -> nat
    decreases entries, entries.len() - from,
{
    if 0 <= from < entries.len() {
        let first = nesting(entries[from].1);
        let rest = nesting_of_entries(entries, from + 1);
        if first >= rest {
            first
        } else {
            rest
        }
    } else {
        0
    }
}

} // verus!
