//! Percent-encoding of raw bytes for a URL's query.

use crate::text::is_ascii_bytes;
use vstd::prelude::*;

verus! {

/// Whether `b` is an unreserved character of a URL: an ASCII letter or
/// digit, `-`, `.`, `_` or `~`. Only these stand for themselves.
pub open spec fn is_unreserved(b: u8) -> bool {
    ||| 65 <= b <= 90
    ||| 97 <= b <= 122
    ||| 48 <= b <= 57
    ||| b == 45
    ||| b == 46
    ||| b == 95
    ||| b == 126
}

/// The upper-case hexadecimal digit for `n`, for `n < 16`, as an ASCII
/// byte.
pub open spec fn upper_hex_byte(n: int) -> u8 {
    if n < 10 {
        (48 + n) as u8
    } else {
        (55 + n) as u8
    }
}

/// One byte in percent-encoding: itself where it is unreserved, else `%`
/// and its two upper-case hexadecimal digits.
pub open spec fn percent_encoded_byte(b: u8) -> Seq<u8> {
    if is_unreserved(b) {
        seq![b]
    } else {
        seq![37u8, upper_hex_byte(b as int / 16), upper_hex_byte(b as int % 16)]
    }
}

/// The bytes in percent-encoding, byte by byte.
pub open spec fn percent_encoded(bytes: Seq<u8>) -> Seq<u8>
    decreases bytes.len(),
{
    if bytes.len() == 0 {
        Seq::empty()
    } else {
        percent_encoded(bytes.drop_last()) + percent_encoded_byte(bytes.last())
    }
}

/// Percent-encoded bytes are ASCII, and none of them is anything but an
/// unreserved character, `%`, or a hexadecimal digit.
pub proof fn lemma_percent_encoded_is_ascii(bytes: Seq<u8>)
    ensures
        is_ascii_bytes(percent_encoded(bytes)),
        forall|i: int|
            0 <= i < percent_encoded(bytes).len() ==> is_unreserved(
                #[trigger] percent_encoded(bytes)[i],
            ) || percent_encoded(bytes)[i] == 37,
        bytes.len() <= percent_encoded(bytes).len() <= 3 * bytes.len(),
    decreases bytes.len(),
{
    if bytes.len() > 0 {
        lemma_percent_encoded_is_ascii(bytes.drop_last());
        let head = percent_encoded(bytes.drop_last());
        let tail = percent_encoded_byte(bytes.last());
        let all = percent_encoded(bytes);
        assert forall|i: int| 0 <= i < all.len() implies (is_unreserved(#[trigger] all[i])
            || all[i] == 37) && all[i] < 128 by {
            if i < head.len() {
                assert(all[i] == head[i]);
            } else {
                assert(all[i] == tail[i - head.len()]);
            }
        }
    }
}

/// The upper-case hexadecimal digit for `n`.
fn upper_hex(n: u8) -> (digit: u8)
    requires
        n < 16,
    ensures
        digit == upper_hex_byte(n as int),
{
    if n < 10 {
        48 + n
    } else {
        55 + n
    }
}

/// Whether `b` stands for itself in a URL.
fn unreserved(b: u8) -> (r: bool)
    ensures
        r == is_unreserved(b),
{
    (65 <= b && b <= 90) || (97 <= b && b <= 122) || (48 <= b && b <= 57) || b == 45 || b == 46
        || b == 95 || b == 126
}

/// Percent-encodes `bytes` for a URL: every byte that is not an unreserved
/// character, and so every byte from 0x80 on, becomes `%` and two
/// upper-case hexadecimal digits.
pub fn percent_encode(bytes: &[u8]) -> (out: Vec<u8>)
    ensures
        out@ == percent_encoded(bytes@),
{
    let mut out: Vec<u8> = Vec::new();
    let mut i: usize = 0;
    assert(bytes@.take(0) =~= Seq::<u8>::empty());
    while i < bytes.len()
        invariant
            i <= bytes@.len(),
            out@ == percent_encoded(bytes@.take(i as int)),
        decreases bytes@.len() - i,
    {
        let b: u8 = bytes[i];
        proof {
            let longer = bytes@.take(i + 1);
            assert(longer.drop_last() =~= bytes@.take(i as int));
            assert(longer.last() == b);
        }
        let ghost before = out@;
        if unreserved(b) {
            out.push(b);
            assert(out@ =~= before + percent_encoded_byte(b));
        } else {
            out.push(37);
            out.push(upper_hex(b / 16));
            out.push(upper_hex(b % 16));
            assert(out@ =~= before + percent_encoded_byte(b));
        }
        i += 1;
    }
    assert(bytes@.take(i as int) =~= bytes@);
    out
}

} // verus!
