//! Decimal notation: how lengths and status codes are written on the wire and read back.

use vstd::prelude::*;

verus! {

/// Whether `b` is one of the ASCII digits `0` to `9`.
pub open spec fn is_digit(b: u8) -> bool {
    48 <= b && b <= 57
}

/// The ASCII digit that stands for `d`, for `d` below ten.
pub open spec fn digit(d: nat) -> u8 {
    (48 + d) as u8
}

/// The decimal notation of `n`, without sign and without leading zeros.
pub open spec fn decimal(n: nat) -> Seq<u8>
    decreases n,
{
    if n < 10 {
        seq![digit(n)]
    } else {
        decimal(n / 10).push(digit(n % 10))
    }
}

/// Whether every byte of `s` is a digit.
pub open spec fn all_digits(s: Seq<u8>) -> bool {
    forall|i: int| 0 <= i < s.len() ==> is_digit(#[trigger] s[i])
}

/// The number that a string of digits denotes; the empty string denotes zero.
pub open spec fn digits_value(s: Seq<u8>) -> nat
    decreases s.len(),
{
    if s.len() == 0 {
        0
    } else {
        digits_value(s.drop_last()) * 10 + (s.last() - 48) as nat
    }
}

/// The digits of a number in decimal notation: `s` itself, or `s` without a leading `+`.
pub open spec fn unsigned_part(s: Seq<u8>) -> Seq<u8> {
    if s.len() > 0 && s[0] == 43 {
        s.skip(1)
    } else {
        s
    }
}

/// The number that the digits `s` denote, where `s` is not empty, holds digits only and
/// denotes a number that fits the machine word.
pub open spec fn digits_usize(s: Seq<u8>) -> Option<usize> {
    if s.len() > 0 && all_digits(s) && digits_value(s) <= usize::MAX {
        Some(digits_value(s) as usize)
    } else {
        None
    }
}

/// The number that `s` denotes, where `s` is one or more digits with an optional `+` in
/// front and the number fits the machine word.
pub open spec fn parse_usize_spec(s: Seq<u8>) -> Option<usize> {
    digits_usize(unsigned_part(s))
}

fn push_decimal(out: &mut Vec<u8>, n: usize)
    ensures
        final(out)@ == old(out)@ + decimal(n as nat),
    decreases n,
{
    if n >= 10 {
        push_decimal(out, n / 10);
    }
    let d: u8 = (n % 10) as u8;
    out.push(48u8 + d);
    proof {
        if n >= 10 {
            assert(final(out)@ == old(out)@ + decimal((n / 10) as nat).push(digit((n % 10) as nat)));
        } else {
            assert(final(out)@ == old(out)@ + seq![digit(n as nat)]);
        }
    }
}

/// Writes `n` in decimal notation.
pub fn to_decimal(n: usize) -> (out: Vec<u8>)
    ensures
        out@ == decimal(n as nat),
{
    let mut out: Vec<u8> = Vec::new();
    push_decimal(&mut out, n);
    assert(Seq::<u8>::empty() + decimal(n as nat) == decimal(n as nat));
    out
}

/// A string of digits denotes at least what any of its prefixes denotes.
proof fn lemma_digits_value_monotone(s: Seq<u8>, k: int)
    requires
        all_digits(s),
        0 <= k <= s.len(),
    ensures
        digits_value(s.take(k)) <= digits_value(s),
    decreases s.len() - k,
{
    if k == s.len() {
        assert(s.take(k) == s);
    } else {
        lemma_digits_value_monotone(s, k + 1);
        assert(s.take(k + 1).drop_last() == s.take(k));
        assert(is_digit(s[k]));
        assert(s.take(k + 1).last() == s[k]);
    }
}

/// Reads a number written as one or more digits. Returns `None` where `s` is not of
/// that form or the number does not fit.
pub fn parse_digits(s: &[u8]) -> (out: Option<usize>)
    ensures
        out == digits_usize(s@),
{
    if s.len() == 0 {
        return None;
    }
    let mut acc: usize = 0;
    let mut i: usize = 0;
    assert(s@.take(0).len() == 0);
    while i < s.len()
        invariant
            i <= s.len(),
            all_digits(s@.take(i as int)),
            acc == digits_value(s@.take(i as int)),
        decreases s.len() - i,
    {
        let b: u8 = s[i];
        if b < 48u8 || b > 57u8 {
            assert(!is_digit(s@[i as int]));
            return None;
        }
        let v: usize = (b - 48u8) as usize;
        proof {
            let next = s@.take(i + 1);
            assert(next.drop_last() == s@.take(i as int));
            assert(next.last() == b);
            assert(digits_value(next) == acc * 10 + v);
            assert forall|j: int| 0 <= j < next.len() implies is_digit(#[trigger] next[j]) by {
                if j < i {
                    assert(s@.take(i as int)[j] == next[j]);
                }
            }
        }
        if acc > (usize::MAX - v) / 10 {
            proof {
                assert(acc * 10 + v > usize::MAX);
                if all_digits(s@) {
                    lemma_digits_value_monotone(s@, i + 1);
                }
            }
            return None;
        }
        acc = acc * 10 + v;
        i += 1;
    }
    assert(s@.take(s.len() as int) == s@);
    Some(acc)
}

/// Reads a number in decimal notation: one or more digits, with an optional `+` in front.
/// Returns `None` where `s` is not of that form or the number does not fit.
pub fn parse_usize(s: &[u8]) -> (out: Option<usize>)
    ensures
        out == parse_usize_spec(s@),
{
    if s.len() > 0 && s[0] == 43u8 {
        let digits = vstd::slice::slice_subrange(s, 1, s.len());
        assert(digits@ == s@.skip(1));
        parse_digits(digits)
    } else {
        parse_digits(s)
    }
}

/// The decimal notation of a number holds digits only, is not empty, and denotes that number.
pub proof fn lemma_decimal_digits(n: nat)
    ensures
        decimal(n).len() > 0,
        all_digits(decimal(n)),
        digits_value(decimal(n)) == n,
    decreases n,
{
    if n < 10 {
        let s = decimal(n);
        assert(s.drop_last().len() == 0);
        assert(digits_value(s.drop_last()) == 0);
        assert(s.last() == digit(n));
    } else {
        lemma_decimal_digits(n / 10);
        let s = decimal(n);
        assert(s.drop_last() == decimal(n / 10));
        assert(s.last() == digit(n % 10));
        assert forall|i: int| 0 <= i < s.len() implies is_digit(#[trigger] s[i]) by {
            if i < s.len() - 1 {
                assert(s[i] == decimal(n / 10)[i]);
            }
        }
    }
}

/// Reading back what was written gives the number that was written.
pub proof fn lemma_parse_decimal_roundtrip(n: usize)
    ensures
        parse_usize_spec(decimal(n as nat)) == Some(n),
{
    let n = n as nat;
    lemma_decimal_digits(n);
    assert(is_digit(decimal(n)[0]));
}

} // verus!
