//! The bencode codec: bytes to values and back.

use crate::decimal::{
    all_digits, digits_value, is_digit, lemma_digit_run_end_is, push_decimal, push_signed_decimal,
};
use crate::grammar::{
    canonical, encode_value, is_canonical, keys_of, parse_bytes, parse_entries, parse_integer, parse_items,
    parse_unbounded, parse_value, serialize_bytes, serialize_entries, serialize_items, with_first,
    with_prefix, DecodeError, Parsed, COLON, DICT_START, END, INTEGER_START, LIST_START, MINUS,
    ZERO,
};
use crate::order::{bytes_lt, insert_position, key_before, key_order, lemma_key_order_sorts};
use crate::roundtrip::lemma_depth_suffices;
use crate::value::{dict_view, list_view, Bencode, BencodeValue};
use vstd::prelude::*;
use vstd::slice::{slice_subrange, slice_to_vec};

verus! {

/// Whether `b` is an ASCII digit.
pub fn is_digit_byte(b: u8) -> (r: bool)
    ensures
        r == is_digit(b),
{
    48 <= b && b <= 57
}

/// One more digit behind a run of digits: ten times its value, and the digit.
proof fn lemma_digits_value_push(s: Seq<u8>, from: int, to: int)
    requires
        0 <= from <= to < s.len(),
    ensures
        digits_value(s.subrange(from, to + 1)) == digits_value(s.subrange(from, to)) * 10 + (s[to]
            - 48) as nat,
{
    let longer = s.subrange(from, to + 1);
    assert(longer.drop_last() =~= s.subrange(from, to));
    assert(longer.last() == s[to]);
}

/// The integer at `pos`, where `bytes[pos]` is `i`, and the index past it.
fn decode_integer(bytes: &[u8], pos: usize) -> (r: Result<(i64, usize), DecodeError>)
    requires
        pos < bytes@.len(),
    ensures
        match r {
            Ok((v, end)) => parse_integer(bytes@, pos as int) == Ok::<(i64, int), DecodeError>(
                (v, end as int),
            ) && pos < end <= bytes@.len(),
            Err(e) => parse_integer(bytes@, pos as int) == Err::<(i64, int), DecodeError>(e),
        },
{
    let len: usize = bytes.len();
    let negative: bool = pos + 1 < len && bytes[pos + 1] == MINUS;
    let start: usize = if negative {
        pos + 2
    } else {
        pos + 1
    };
    let mut i: usize = start;
    let mut magnitude: u64 = 0;
    let mut too_large: bool = false;
    assert(bytes@.subrange(start as int, start as int).len() == 0);
    while i < len && is_digit_byte(bytes[i])
        invariant
            start <= i <= len,
            len == bytes@.len(),
            all_digits(bytes@.subrange(start as int, i as int)),
            magnitude <= 0x8000_0000_0000_0000,
            !too_large ==> magnitude == digits_value(bytes@.subrange(start as int, i as int)),
            too_large ==> digits_value(bytes@.subrange(start as int, i as int))
                > 0x8000_0000_0000_0000,
        decreases len - i,
    {
        let digit: u64 = (bytes[i] - 48) as u64;
        proof {
            lemma_digits_value_push(bytes@, start as int, i as int);
            let longer = bytes@.subrange(start as int, i + 1);
            assert forall|k: int| 0 <= k < longer.len() implies is_digit(#[trigger] longer[k]) by {
                if k < i - start {
                    assert(longer[k] == bytes@.subrange(start as int, i as int)[k]);
                }
            }
        }
        if !too_large {
            // 2^63 is 922337203685477580 tens and 8.
            if magnitude > 922337203685477580 || (magnitude == 922337203685477580 && digit > 8) {
                too_large = true;
            } else {
                magnitude = magnitude * 10 + digit;
            }
        }
        i += 1;
    }
    proof {
        lemma_digit_run_end_is(bytes@, start as int, i as int);
    }
    let ghost digits = bytes@.subrange(start as int, i as int);
    assert(digits.len() > 1 ==> digits[0] == bytes@[start as int]);
    if i >= len || bytes[i] != END {
        Err(DecodeError::InvalidInteger)
    } else if i == start || (i - start > 1 && bytes[start] == ZERO) {
        Err(DecodeError::InvalidInteger)
    } else if too_large {
        Err(DecodeError::InvalidInteger)
    } else if negative {
        if magnitude == 0 {
            Err(DecodeError::InvalidInteger)
        } else if magnitude == 0x8000_0000_0000_0000 {
            Ok((i64::MIN, i + 1))
        } else {
            let value: i64 = -(magnitude as i64);
            Ok((value, i + 1))
        }
    } else {
        if magnitude > 0x7fff_ffff_ffff_ffff {
            Err(DecodeError::InvalidInteger)
        } else {
            Ok((magnitude as i64, i + 1))
        }
    }
}

/// The byte string at `pos`, where `bytes[pos]` is a digit, and the index
/// past it.
fn decode_bytes(bytes: &[u8], pos: usize) -> (r: Result<(Vec<u8>, usize), DecodeError>)
    requires
        pos < bytes@.len(),
        is_digit(bytes@[pos as int]),
    ensures
        match r {
            Ok((b, end)) => parse_bytes(bytes@, pos as int) == Ok::<(Seq<u8>, int), DecodeError>(
                (b@, end as int),
            ) && pos < end <= bytes@.len(),
            Err(e) => parse_bytes(bytes@, pos as int) == Err::<(Seq<u8>, int), DecodeError>(e),
        },
{
    let len: usize = bytes.len();
    let mut i: usize = pos;
    let mut declared: usize = 0;
    let mut too_long: bool = false;
    assert(bytes@.subrange(pos as int, pos as int).len() == 0);
    while i < len && is_digit_byte(bytes[i])
        invariant
            pos <= i <= len,
            len == bytes@.len(),
            all_digits(bytes@.subrange(pos as int, i as int)),
            declared <= len,
            !too_long ==> declared == digits_value(bytes@.subrange(pos as int, i as int)),
            too_long ==> digits_value(bytes@.subrange(pos as int, i as int)) > len,
        decreases len - i,
    {
        let digit: usize = (bytes[i] - 48) as usize;
        proof {
            lemma_digits_value_push(bytes@, pos as int, i as int);
            let longer = bytes@.subrange(pos as int, i + 1);
            assert forall|k: int| 0 <= k < longer.len() implies is_digit(#[trigger] longer[k]) by {
                if k < i - pos {
                    assert(longer[k] == bytes@.subrange(pos as int, i as int)[k]);
                }
            }
        }
        if !too_long {
            if declared > len / 10 {
                too_long = true;
            } else if digit > len - declared * 10 {
                too_long = true;
            } else {
                declared = declared * 10 + digit;
            }
        }
        i += 1;
    }
    proof {
        lemma_digit_run_end_is(bytes@, pos as int, i as int);
    }
    if i >= len || bytes[i] != COLON {
        Err(DecodeError::MissingColon)
    } else if too_long || declared > len - (i + 1) {
        Err(DecodeError::InvalidLength)
    } else {
        let end: usize = i + 1 + declared;
        let content = slice_to_vec(slice_subrange(bytes, i + 1, end));
        Ok((content, end))
    }
}

/// Whether `r` is what the grammar gives: the same value and end, or the
/// same error.
pub open spec fn agrees_with(
    r: Result<(BencodeValue, usize), DecodeError>,
    p: Parsed<Bencode>,
) -> bool {
    match r {
        Ok((value, end)) => p == Ok::<(Bencode, int), DecodeError>((value@, end as int)),
        Err(e) => p == Err::<(Bencode, int), DecodeError>(e),
    }
}

/// Putting one item in front of a result and then a prefix is putting the
/// prefix with that item behind it.
proof fn lemma_with_prefix_push<T>(before: Seq<T>, first: T, rest: Parsed<Seq<T>>)
    ensures
        with_prefix(before, with_first(first, rest)) == with_prefix(before.push(first), rest),
{
    match rest {
        Ok((items, end)) => {
            assert(before + (seq![first] + items) =~= before.push(first) + items);
        },
        Err(e) => {},
    }
}

/// The value at `pos` and the index past it, with at most `depth` lists
/// and dictionaries inside one another.
fn decode_value(bytes: &[u8], pos: usize, depth: usize) -> (r: Result<
    (BencodeValue, usize),
    DecodeError,
>)
    ensures
        agrees_with(r, parse_value(bytes@, pos as int, depth as nat)),
        r matches Ok((_, end)) ==> pos < end <= bytes@.len(),
    decreases bytes@.len() - pos, 0int,
{
    if pos >= bytes.len() {
        return Err(DecodeError::InvalidPrefix);
    }
    let first: u8 = bytes[pos];
    if first == INTEGER_START {
        match decode_integer(bytes, pos) {
            Ok((v, end)) => Ok((BencodeValue::Integer(v), end)),
            Err(e) => Err(e),
        }
    } else if is_digit_byte(first) {
        match decode_bytes(bytes, pos) {
            Ok((b, end)) => Ok((BencodeValue::ByteString(b), end)),
            Err(e) => Err(e),
        }
    } else if first == LIST_START {
        if depth == 0 {
            Err(DecodeError::NestingTooDeep)
        } else {
            match decode_items(bytes, pos + 1, depth - 1) {
                Ok((items, end)) => Ok((BencodeValue::List(items), end)),
                Err(e) => Err(e),
            }
        }
    } else if first == DICT_START {
        if depth == 0 {
            Err(DecodeError::NestingTooDeep)
        } else {
            match decode_entries(bytes, pos + 1, depth - 1) {
                Ok((entries, end)) => Ok((BencodeValue::Dictionary(entries), end)),
                Err(e) => Err(e),
            }
        }
    } else {
        Err(DecodeError::InvalidPrefix)
    }
}

/// The items of a list from `pos` to the `e` that closes it.
fn decode_items(bytes: &[u8], pos: usize, depth: usize) -> (r: Result<
    (Vec<BencodeValue>, usize),
    DecodeError,
>)
    requires
        pos <= bytes@.len(),
    ensures
        match r {
            Ok((items, end)) => parse_items(bytes@, pos as int, depth as nat) == Ok::<
                (Seq<Bencode>, int),
                DecodeError,
            >((list_view(items@), end as int)) && pos < end <= bytes@.len(),
            Err(e) => parse_items(bytes@, pos as int, depth as nat) == Err::<
                (Seq<Bencode>, int),
                DecodeError,
            >(e),
        },
    decreases bytes@.len() - pos, 1int,
{
    let mut items: Vec<BencodeValue> = Vec::new();
    let mut cur: usize = pos;
    assert(list_view(items@) =~= Seq::<Bencode>::empty());
    assert(with_prefix(Seq::<Bencode>::empty(), parse_items(bytes@, pos as int, depth as nat))
        == parse_items(bytes@, pos as int, depth as nat)) by {
        match parse_items(bytes@, pos as int, depth as nat) {
            Ok((rest, end)) => {
                assert(Seq::<Bencode>::empty() + rest =~= rest);
            },
            Err(e) => {},
        }
    }
    loop
        invariant
            pos <= cur <= bytes@.len(),
            parse_items(bytes@, pos as int, depth as nat) == with_prefix(
                list_view(items@),
                parse_items(bytes@, cur as int, depth as nat),
            ),
        decreases bytes@.len() - cur,
    {
        if cur >= bytes.len() {
            return Err(DecodeError::UnterminatedList);
        }
        if bytes[cur] == END {
            assert(list_view(items@) + Seq::<Bencode>::empty() =~= list_view(items@));
            return Ok((items, cur + 1));
        }
        match decode_value(bytes, cur, depth) {
            Err(e) => {
                return Err(e);
            },
            Ok((item, next)) => {
                proof {
                    lemma_with_prefix_push(
                        list_view(items@),
                        item@,
                        parse_items(bytes@, next as int, depth as nat),
                    );
                    assert(list_view(items@.push(item)) =~= list_view(items@).push(item@));
                }
                items.push(item);
                cur = next;
            },
        }
    }
}

/// The entries of a dictionary from `pos` to the `e` that closes it.
fn decode_entries(bytes: &[u8], pos: usize, depth: usize) -> (r: Result<
    (Vec<(Vec<u8>, BencodeValue)>, usize),
    DecodeError,
>)
    requires
        pos <= bytes@.len(),
    ensures
        match r {
            Ok((entries, end)) => parse_entries(bytes@, pos as int, depth as nat) == Ok::<
                (Seq<(Seq<u8>, Bencode)>, int),
                DecodeError,
            >((dict_view(entries@), end as int)) && pos < end <= bytes@.len(),
            Err(e) => parse_entries(bytes@, pos as int, depth as nat) == Err::<
                (Seq<(Seq<u8>, Bencode)>, int),
                DecodeError,
            >(e),
        },
    decreases bytes@.len() - pos, 1int,
{
    let mut entries: Vec<(Vec<u8>, BencodeValue)> = Vec::new();
    let mut cur: usize = pos;
    assert(dict_view(entries@) =~= Seq::<(Seq<u8>, Bencode)>::empty());
    assert(with_prefix(
        Seq::<(Seq<u8>, Bencode)>::empty(),
        parse_entries(bytes@, pos as int, depth as nat),
    ) == parse_entries(bytes@, pos as int, depth as nat)) by {
        match parse_entries(bytes@, pos as int, depth as nat) {
            Ok((rest, end)) => {
                assert(Seq::<(Seq<u8>, Bencode)>::empty() + rest =~= rest);
            },
            Err(e) => {},
        }
    }
    loop
        invariant
            pos <= cur <= bytes@.len(),
            parse_entries(bytes@, pos as int, depth as nat) == with_prefix(
                dict_view(entries@),
                parse_entries(bytes@, cur as int, depth as nat),
            ),
        decreases bytes@.len() - cur,
    {
        if cur >= bytes.len() {
            return Err(DecodeError::UnterminatedDict);
        }
        if bytes[cur] == END {
            assert(dict_view(entries@) + Seq::<(Seq<u8>, Bencode)>::empty() =~= dict_view(
                entries@,
            ));
            return Ok((entries, cur + 1));
        }
        if !is_digit_byte(bytes[cur]) {
            return Err(DecodeError::NonStringKey);
        }
        match decode_bytes(bytes, cur) {
            Err(e) => {
                return Err(e);
            },
            Ok((key, at)) => {
                if at >= bytes.len() {
                    return Err(DecodeError::UnterminatedDict);
                }
                match decode_value(bytes, at, depth) {
                    Err(e) => {
                        return Err(e);
                    },
                    Ok((value, next)) => {
                        proof {
                            lemma_with_prefix_push(
                                dict_view(entries@),
                                (key@, value@),
                                parse_entries(bytes@, next as int, depth as nat),
                            );
                            assert(dict_view(entries@.push((key, value))) =~= dict_view(
                                entries@,
                            ).push((key@, value@)));
                        }
                        entries.push((key, value));
                        cur = next;
                    },
                }
            },
        }
    }
}

/// Decodes the one value that starts at `offset`, with at most `max_depth`
/// lists and dictionaries inside one another, and says how many bytes it
/// takes up. What follows the value in `bytes` is not looked at.
///
/// The result is what the grammar gives for these bytes: the value and
/// its length, or the first error met from left to right. A list or
/// dictionary that would be level `max_depth + 1` fails with
/// `NestingTooDeep`; the decoder calls itself once for each level, so the
/// bound is what keeps hostile input from using up the stack.
pub fn decode_one_bounded(bytes: &[u8], offset: usize, max_depth: usize) -> (r: Result<
    (BencodeValue, usize),
    DecodeError,
>)
    ensures
        match r {
            Ok((value, consumed)) => parse_value(bytes@, offset as int, max_depth as nat) == Ok::<
                (Bencode, int),
                DecodeError,
            >((value@, offset + consumed)) && 0 < consumed && offset + consumed <= bytes@.len(),
            Err(e) => parse_value(bytes@, offset as int, max_depth as nat) == Err::<
                (Bencode, int),
                DecodeError,
            >(e),
        },
{
    match decode_value(bytes, offset, max_depth) {
        Ok((value, end)) => Ok((value, end - offset)),
        Err(e) => Err(e),
    }
}

/// The indices that `order` holds, as mathematical integers.
pub open spec fn indices(order: Seq<usize>) -> Seq<int> {
    Seq::new(order.len(), |k: int| order[k] as int)
}

/// The indices of the entries in ascending order of their keys, entries
/// with equal keys in the order in which they stand.
fn sorted_order(entries: &Vec<(Vec<u8>, BencodeValue)>) -> (order: Vec<usize>)
    ensures
        indices(order@) == key_order(keys_of(dict_view(entries@))),
        order@.len() == entries@.len(),
        forall|k: int| 0 <= k < order@.len() ==> #[trigger] order@[k] < entries@.len(),
{
    let ghost keys = keys_of(dict_view(entries@));
    let mut order: Vec<usize> = Vec::new();
    let mut i: usize = 0;
    assert(keys.take(0) =~= Seq::<Seq<u8>>::empty());
    assert(indices(order@) =~= key_order(keys.take(0)));
    while i < entries.len()
        invariant
            i <= entries@.len(),
            keys == keys_of(dict_view(entries@)),
            order@.len() == i,
            indices(order@) == key_order(keys.take(i as int)),
            forall|k: int| 0 <= k < order@.len() ==> #[trigger] order@[k] < i,
        decreases entries@.len() - i,
    {
        let ghost before = key_order(keys.take(i as int));
        let ghost upto = keys.take(i + 1);
        let ghost key = keys[i as int];
        assert(upto.drop_last() =~= keys.take(i as int));
        assert(upto.last() == key);
        let mut p: usize = order.len();
        assert(before.take(p as int) =~= before);
        while p > 0 && key_before(entries[i].0.as_slice(), entries[order[p - 1]].0.as_slice())
            invariant
                p <= order@.len(),
                order@.len() == i,
                i < entries@.len(),
                keys == keys_of(dict_view(entries@)),
                key == keys[i as int],
                upto == keys.take(i + 1),
                before == indices(order@),
                forall|k: int| 0 <= k < order@.len() ==> #[trigger] order@[k] < i,
                insert_position(upto, before, key) == insert_position(
                    upto,
                    before.take(p as int),
                    key,
                ),
            decreases p,
        {
            proof {
                let shorter = before.take(p as int);
                assert(shorter.last() == order@[p - 1] as int);
                assert(upto[shorter.last()] == entries@[order@[p - 1] as int].0@);
                assert(shorter.drop_last() =~= before.take(p - 1));
            }
            p -= 1;
        }
        proof {
            let shorter = before.take(p as int);
            if p > 0 {
                assert(shorter.last() == order@[p - 1] as int);
                assert(upto[shorter.last()] == entries@[order@[p - 1] as int].0@);
            }
            assert(insert_position(upto, before, key) == p);
            assert(indices(order@.insert(p as int, i)) =~= before.insert(p as int, i as int));
        }
        order.insert(p, i);
        i += 1;
    }
    assert(keys.take(i as int) =~= keys);
    order
}

/// Appends the canonical bytes of `value` to `out`.
#[verifier::loop_isolation(false)]
pub fn encode_into(value: &BencodeValue, out: &mut Vec<u8>)
    ensures
        final(out)@ == old(out)@ + encode_value(value@),
    decreases value,
{
    match value {
        BencodeValue::Integer(v) => {
            out.push(INTEGER_START);
            push_signed_decimal(out, *v);
            out.push(END);
            assert(out@ =~= old(out)@ + encode_value(value@));
        },
        BencodeValue::ByteString(b) => {
            push_byte_string(out, b.as_slice());
        },
        BencodeValue::List(items) => {
            let ghost written = match canonical(value@) {
                Bencode::List(c) => c,
                _ => Seq::empty(),
            };
            assert(value@ == Bencode::List(list_view(items@)));
            assert(list_view(items@).len() == items@.len());
            assert(written.len() == items@.len());
            out.push(LIST_START);
            let ghost start = out@;
            let mut i: usize = 0;
            assert(out@ + serialize_items(written, 0) =~= start + serialize_items(written, 0));
            while i < items.len()
                invariant
                    i <= items@.len(),
                    value@ == Bencode::List(list_view(items@)),
                    canonical(value@) == Bencode::List(written),
                    written.len() == items@.len(),
                    out@ + serialize_items(written, i as int) == start + serialize_items(
                        written,
                        0,
                    ),
                decreases items@.len() - i,
            {
                let ghost before = out@;
                assert(written[i as int] == canonical(items@[i as int]@));
                encode_into(&items[i], out);
                assert(out@ + serialize_items(written, i + 1) =~= before + serialize_items(
                    written,
                    i as int,
                ));
                i += 1;
            }
            assert(serialize_items(written, i as int) =~= Seq::<u8>::empty());
            out.push(END);
            assert(out@ =~= old(out)@ + encode_value(value@));
        },
        BencodeValue::Dictionary(entries) => {
            let ghost held = dict_view(entries@);
            let ghost written = match canonical(value@) {
                Bencode::Dict(c) => c,
                _ => Seq::empty(),
            };
            assert(value@ == Bencode::Dict(held));
            assert(held.len() == entries@.len());
            assert(written.len() == entries@.len());
            let order = sorted_order(entries);
            proof {
                lemma_key_order_sorts(keys_of(held));
            }
            out.push(DICT_START);
            let ghost start = out@;
            let mut k: usize = 0;
            assert(out@ + serialize_entries(written, 0) =~= start + serialize_entries(written, 0));
            while k < order.len()
                invariant
                    k <= order@.len(),
                    order@.len() == entries@.len(),
                    held == dict_view(entries@),
                    value@ == Bencode::Dict(held),
                    canonical(value@) == Bencode::Dict(written),
                    written.len() == entries@.len(),
                    indices(order@) == key_order(keys_of(held)),
                    forall|j: int| 0 <= j < order@.len() ==> #[trigger] order@[j] < entries@.len(),
                    out@ + serialize_entries(written, k as int) == start + serialize_entries(
                        written,
                        0,
                    ),
                decreases order@.len() - k,
            {
                let ghost before = out@;
                let at: usize = order[k];
                proof {
                    assert(indices(order@)[k as int] == at as int);
                    assert(written[k as int] == (held[at as int].0, canonical(held[at as int].1)));
                    assert(held[at as int] == (entries@[at as int].0@, entries@[at as int].1@));
                }
                push_byte_string(out, entries[at].0.as_slice());
                encode_into(&entries[at].1, out);
                assert(out@ + serialize_entries(written, k + 1) =~= before + serialize_entries(
                    written,
                    k as int,
                ));
                k += 1;
            }
            assert(serialize_entries(written, k as int) =~= Seq::<u8>::empty());
            out.push(END);
            assert(out@ =~= old(out)@ + encode_value(value@));
        },
    }
}

/// Appends a byte string as bencode writes it: its length in decimal, `:`,
/// its bytes.
pub fn push_byte_string(out: &mut Vec<u8>, b: &[u8])
    ensures
        final(out)@ == old(out)@ + serialize_bytes(b@),
{
    push_decimal(out, b.len() as u64);
    out.push(COLON);
    let mut i: usize = 0;
    let ghost head = out@;
    while i < b.len()
        invariant
            i <= b@.len(),
            out@ == head + b@.take(i as int),
        decreases b@.len() - i,
    {
        out.push(b[i]);
        assert(out@ =~= head + b@.take(i + 1));
        i += 1;
    }
    assert(b@.take(i as int) =~= b@);
    assert(out@ =~= old(out)@ + serialize_bytes(b@));
}

/// The canonical bytes of `value`: each dictionary in ascending order of
/// its keys, whatever the order in which it was built.
pub fn encode(value: &BencodeValue) -> (bytes: Vec<u8>)
    ensures
        bytes@ == encode_value(value@),
{
    let mut out: Vec<u8> = Vec::new();
    encode_into(value, &mut out);
    assert(out@ =~= encode_value(value@));
    out
}

/// Decodes the one value that starts at `offset` and says how many bytes
/// it takes up. What follows the value in `bytes` is not looked at, so a
/// value may have others behind it.
///
/// The result is what the grammar gives for these bytes with no limit on
/// nesting: the value and its length, or the first error met from left to
/// right. The decoder calls itself once for each level of nesting; for
/// input from strangers use [`decode_one_bounded`].
pub fn decode_one(bytes: &[u8], offset: usize) -> (r: Result<(BencodeValue, usize), DecodeError>)
    ensures
        match r {
            Ok((value, consumed)) => parse_unbounded(bytes@, offset as int) == Ok::<
                (Bencode, int),
                DecodeError,
            >((value@, offset + consumed)) && 0 < consumed && offset + consumed <= bytes@.len(),
            Err(e) => parse_unbounded(bytes@, offset as int) == Err::<
                (Bencode, int),
                DecodeError,
            >(e) && e != DecodeError::NestingTooDeep,
        },
{
    proof {
        lemma_depth_suffices(bytes@, offset as int, bytes@.len());
    }
    decode_one_bounded(bytes, offset, bytes.len())
}

/// Decodes the value that `bytes` begins with. Bytes behind that value are
/// not looked at: a caller that must refuse them compares the length that
/// [`decode_one`] reports with the length of the input.
pub fn decode_top_level(bytes: &[u8]) -> (r: Result<BencodeValue, DecodeError>)
    ensures
        match r {
            Ok(value) => parse_unbounded(bytes@, 0) matches Ok((v, _)) && v == value@,
            Err(e) => parse_unbounded(bytes@, 0) == Err::<(Bencode, int), DecodeError>(
                e,
            ) && e != DecodeError::NestingTooDeep,
        },
{
    match decode_one(bytes, 0) {
        Ok((value, _)) => Ok(value),
        Err(e) => Err(e),
    }
}

impl BencodeValue {
    /// Whether the value is in canonical form: whether in every dictionary
    /// in it, at any depth, the keys ascend strictly, so that none occurs
    /// twice. Such a value is what decoding its encoding gives back.
    #[verifier::loop_isolation(false)]
    pub fn is_canonical(&self) -> (r: bool)
        ensures
            r == is_canonical(self@),
        decreases self,
    {
        match self {
            BencodeValue::Integer(_) => true,
            BencodeValue::ByteString(_) => true,
            BencodeValue::List(items) => {
                let ghost held = list_view(items@);
                assert(self@ == Bencode::List(held));
                assert(held.len() == items@.len());
                let mut i: usize = 0;
                while i < items.len()
                    invariant
                        i <= items@.len(),
                        forall|k: int| 0 <= k < i ==> is_canonical(#[trigger] held[k]),
                    decreases items@.len() - i,
                {
                    assert(held[i as int] == items@[i as int]@);
                    if !items[i].is_canonical() {
                        assert(self@->List_0 == held);
                        assert(is_canonical(self@) ==> is_canonical(held[i as int]));
                        return false;
                    }
                    i += 1;
                }
                true
            },
            BencodeValue::Dictionary(entries) => {
                let ghost held = dict_view(entries@);
                let ghost keys = keys_of(held);
                assert(self@ == Bencode::Dict(held));
                assert(held.len() == entries@.len());
                let mut i: usize = 0;
                while i < entries.len()
                    invariant
                        i <= entries@.len(),
                        forall|k: int| 0 <= k < i ==> is_canonical((#[trigger] held[k]).1),
                        forall|k: int|
                            0 <= k < i && k < keys.len() - 1 ==> bytes_lt(
                                #[trigger] keys[k],
                                keys[k + 1],
                            ),
                    decreases entries@.len() - i,
                {
                    assert(held[i as int] == (entries@[i as int].0@, entries@[i as int].1@));
                    if i + 1 < entries.len() {
                        assert(keys[i as int] == entries@[i as int].0@);
                        assert(keys[i + 1] == entries@[i + 1].0@);
                        if !key_before(entries[i].0.as_slice(), entries[i + 1].0.as_slice()) {
                            return false;
                        }
                    }
                    if !entries[i].1.is_canonical() {
                        assert(!is_canonical(held[i as int].1));
                        return false;
                    }
                    i += 1;
                }
                true
            },
        }
    }
}

} // verus!
