//! Decimal text: the ASCII digits that bencode uses for integers and for
//! string lengths, and that the announce query uses for its counters.

use vstd::prelude::*;

verus! {

/// Whether `b` is one of the ASCII digits `0` to `9`.
pub open spec fn is_digit(b: u8) -> bool {
    48 <= b <= 57
}

/// The ASCII digit that stands for `d`, for `d < 10`.
pub open spec fn digit_byte(d: nat) -> u8 {
    (48 + d) as u8
}

/// The decimal text of `n`: no sign, no leading zero, `"0"` for zero.
pub open spec fn decimal(n: nat) -> Seq<u8>
    decreases n,
{
    if n < 10 {
        seq![digit_byte(n)]
    } else {
        decimal(n / 10).push(digit_byte(n % 10))
    }
}

/// The decimal text of a signed number: `-` and the magnitude for a
/// negative one, the magnitude alone otherwise.
pub open spec fn signed_decimal(v: int) -> Seq<u8> {
    if v < 0 {
        seq![45u8] + decimal((-v) as nat)
    } else {
        decimal(v as nat)
    }
}

/// The number that a run of ASCII digits denotes, leading zeros allowed;
/// zero for the empty run.
pub open spec fn digits_value(s: Seq<u8>) -> nat
    decreases s.len(),
{
    if s.len() == 0 {
        0
    } else {
        digits_value(s.drop_last()) * 10 + (s.last() - 48) as nat
    }
}

/// Whether every byte of `s` is an ASCII digit.
pub open spec fn all_digits(s: Seq<u8>) -> bool {
    forall|i: int| 0 <= i < s.len() ==> is_digit(#[trigger] s[i])
}

/// Whether `s` is the decimal text of some number: digits only, at least
/// one, and no leading zero unless it is `"0"` itself.
pub open spec fn is_canonical_digits(s: Seq<u8>) -> bool {
    &&& s.len() > 0
    &&& all_digits(s)
    &&& (s.len() > 1 ==> s[0] != 48)
}

/// The first index at or after `pos` that holds no digit, or the length of
/// `s` where the digits run to its end.
pub open spec fn digit_run_end(s: Seq<u8>, pos: int) -> int
    decreases s.len() - pos,
{
    if 0 <= pos < s.len() && is_digit(s[pos]) {
        digit_run_end(s, pos + 1)
    } else {
        pos
    }
}

/// The decimal text of a number is canonical and never empty.
pub proof fn lemma_decimal_is_canonical(n: nat)
    ensures
        is_canonical_digits(decimal(n)),
        n < 10 ==> decimal(n).len() == 1,
        n >= 10 ==> decimal(n).len() >= 2,
        n == 0 <==> decimal(n) == seq![48u8],
        n > 0 ==> decimal(n)[0] != 48,
    decreases n,
{
    if n < 10 {
        assert(decimal(n)[0] == digit_byte(n));
        assert(seq![48u8][0] == 48u8);
        if n == 0 {
            assert(decimal(n) =~= seq![48u8]);
        }
    } else {
        lemma_decimal_is_canonical(n / 10);
        let head = decimal(n / 10);
        assert(decimal(n)[0] == head[0]);
        assert(seq![48u8].len() == 1);
        assert forall|i: int| 0 <= i < decimal(n).len() implies is_digit(
            #[trigger] decimal(n)[i],
        ) by {
            if i < head.len() {
                assert(decimal(n)[i] == head[i]);
            }
        }
    }
}

/// Reading back the decimal text of a number gives the number.
pub proof fn lemma_digits_value_of_decimal(n: nat)
    ensures
        digits_value(decimal(n)) == n,
    decreases n,
{
    if n < 10 {
        let s = decimal(n);
        assert(s.drop_last().len() == 0);
        assert(digits_value(s.drop_last()) == 0);
    } else {
        lemma_digits_value_of_decimal(n / 10);
        let s = decimal(n);
        assert(s.drop_last() =~= decimal(n / 10));
    }
}

/// A canonical run of digits is the decimal text of the number it denotes.
pub proof fn lemma_decimal_of_digits_value(s: Seq<u8>)
    requires
        is_canonical_digits(s),
    ensures
        decimal(digits_value(s)) == s,
    decreases s.len(),
{
    if s.len() == 1 {
        assert(s.drop_last().len() == 0);
        assert(digits_value(s.drop_last()) == 0);
        assert(decimal(digits_value(s)) =~= s);
    } else {
        let head = s.drop_last();
        assert(head[0] == s[0]);
        assert(is_canonical_digits(head));
        lemma_decimal_of_digits_value(head);
        lemma_digits_value_positive(head);
        let n = digits_value(s);
        let d = (s.last() - 48) as nat;
        assert(n == digits_value(head) * 10 + d);
        assert(n / 10 == digits_value(head) && n % 10 == d);
        assert(decimal(n) =~= s);
    }
}

/// A run of digits that does not start with `0` denotes a positive number,
/// and one of two or more digits at least ten.
pub proof fn lemma_digits_value_positive(s: Seq<u8>)
    requires
        s.len() > 0,
        all_digits(s),
        s[0] != 48,
    ensures
        digits_value(s) > 0,
        s.len() > 1 ==> digits_value(s) >= 10,
    decreases s.len(),
{
    if s.len() == 1 {
        assert(s.drop_last().len() == 0);
        assert(digits_value(s.drop_last()) == 0);
        assert(s.last() == s[0]);
    } else {
        let head = s.drop_last();
        assert(head[0] == s[0]);
        lemma_digits_value_positive(head);
    }
}

/// The run of digits that starts at `pos` ends at `digit_run_end`: all
/// before it are digits, and the byte there, if any, is none.
pub proof fn lemma_digit_run_end(s: Seq<u8>, pos: int)
    requires
        0 <= pos <= s.len(),
    ensures
        pos <= digit_run_end(s, pos) <= s.len(),
        all_digits(s.subrange(pos, digit_run_end(s, pos))),
        digit_run_end(s, pos) < s.len() ==> !is_digit(s[digit_run_end(s, pos)]),
    decreases s.len() - pos,
{
    if pos < s.len() && is_digit(s[pos]) {
        lemma_digit_run_end(s, pos + 1);
        let end = digit_run_end(s, pos);
        let run = s.subrange(pos, end);
        let tail = s.subrange(pos + 1, end);
        assert forall|i: int| 0 <= i < run.len() implies is_digit(#[trigger] run[i]) by {
            if i > 0 {
                assert(run[i] == tail[i - 1]);
            }
        }
    }
}

/// A run of digits that is followed by a byte that is no digit, or by the
/// end of `s`, is the whole run.
pub proof fn lemma_digit_run_end_is(s: Seq<u8>, pos: int, end: int)
    requires
        0 <= pos <= end <= s.len(),
        all_digits(s.subrange(pos, end)),
        end < s.len() ==> !is_digit(s[end]),
    ensures
        digit_run_end(s, pos) == end,
    decreases end - pos,
{
    if pos < end {
        assert(s.subrange(pos, end)[0] == s[pos]);
        assert forall|i: int| 0 <= i < end - (pos + 1) implies is_digit(
            #[trigger] s.subrange(pos + 1, end)[i],
        ) by {
            assert(s.subrange(pos + 1, end)[i] == s.subrange(pos, end)[i + 1]);
        }
        lemma_digit_run_end_is(s, pos + 1, end);
    }
}

/// Appends the decimal text of `n` to `out`.
pub fn push_decimal(out: &mut Vec<u8>, n: u64)
    ensures
        final(out)@ == old(out)@ + decimal(n as nat),
    decreases n,
{
    if n >= 10 {
        push_decimal(out, n / 10);
    }
    let digit: u8 = (n % 10) as u8;
    out.push(48 + digit);
    proof {
        if n >= 10 {
            assert(final(out)@ =~= old(out)@ + decimal(n as nat));
        } else {
            assert(final(out)@ =~= old(out)@ + decimal(n as nat));
        }
    }
}

/// Appends the decimal text of the signed number `v` to `out`.
pub fn push_signed_decimal(out: &mut Vec<u8>, v: i64)
    ensures
        final(out)@ == old(out)@ + signed_decimal(v as int),
{
    if v < 0 {
        out.push(45);
        let magnitude: u64 = ((-(v + 1)) as u64) + 1;
        push_decimal(out, magnitude);
        assert(final(out)@ =~= old(out)@ + signed_decimal(v as int));
    } else {
        push_decimal(out, v as u64);
    }
}

} // verus!
