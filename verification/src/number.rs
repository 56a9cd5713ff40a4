//! Unsigned decimal numbers as a response spells them.

use vstd::prelude::*;
use crate::lexer::Span;

verus! {

/// Whether `c` is one of the ten ASCII digits.
pub open spec fn is_digit(c: char) -> bool {
    0x30 <= c as u32 <= 0x39
}

/// The value of an ASCII digit.
pub open spec fn digit_value(c: char) -> nat {
    (c as u32 - 0x30) as nat
}

/// Whether every character is an ASCII digit.
pub open spec fn all_digits(d: Seq<char>) -> bool {
    forall|i: int| 0 <= i < d.len() ==> is_digit(#[trigger] d[i])
}

/// The number that a run of digits spells in base ten.
pub open spec fn decimal_value(d: Seq<char>) -> nat
    decreases d.len(),
{
    if d.len() == 0 {
        0
    } else {
        decimal_value(d.drop_last()) * 10 + digit_value(d.last())
    }
}

/// The digits of a numeral: the text without one leading plus sign.
pub open spec fn digits_of(t: Seq<char>) -> Seq<char> {
    if t.len() > 0 && t[0] == '+' {
        t.skip(1)
    } else {
        t
    }
}

/// Whether `t` spells an unsigned integer no greater than `max`: an
/// optional plus sign, then one or more digits and nothing else.
pub open spec fn is_unsigned(t: Seq<char>, max: nat) -> bool {
    let d = digits_of(t);
    d.len() > 0 && all_digits(d) && decimal_value(d) <= max
}

/// The number that the numeral `t` spells.
pub open spec fn unsigned_value(t: Seq<char>) -> nat {
    decimal_value(digits_of(t))
}

/// A run of digits spells at least what any of its prefixes spells.
pub proof fn lemma_prefix_value(d: Seq<char>, k: int)
    requires
        0 <= k <= d.len(),
    ensures
        decimal_value(d.take(k)) <= decimal_value(d),
    decreases d.len(),
{
    if k == d.len() {
        assert(d.take(k) =~= d);
    } else {
        assert(d.drop_last().take(k) =~= d.take(k));
        lemma_prefix_value(d.drop_last(), k);
    }
}

/// Reads the characters of `span` as an unsigned integer no greater than
/// `max`.
pub fn parse_unsigned(chars: &Vec<char>, span: Span, max: u64) -> (r: Option<u64>)
    requires
        span.start <= span.end <= chars.len(),
    ensures
        r is Some <==> is_unsigned(span.of(chars@), max as nat),
        r is Some ==> r->0 == unsigned_value(span.of(chars@)),
{
    let ghost t = span.of(chars@);
    let mut first: usize = span.start;
    if first < span.end && chars[first] == '+' {
        first = first + 1;
    }
    let ghost d = digits_of(t);
    assert(d =~= chars@.subrange(first as int, span.end as int));
    if first == span.end {
        return None;
    }
    let mut acc: u64 = 0;
    let mut i: usize = first;
    while i < span.end
        invariant
            first <= i <= span.end <= chars.len(),
            d == chars@.subrange(first as int, span.end as int),
            d == digits_of(span.of(chars@)),
            acc == decimal_value(d.take(i - first)),
            acc <= max,
            forall|j: int| 0 <= j < i - first ==> is_digit(#[trigger] d[j]),
        decreases span.end - i,
    {
        let c = chars[i];
        let u: u32 = c as u32;
        if u < 0x30 || u > 0x39 {
            assert(!is_digit(d[i - first]));
            return None;
        }
        let next: u128 = (acc as u128) * 10 + ((u - 0x30) as u128);
        proof {
            assert(d.take(i + 1 - first).drop_last() =~= d.take(i - first));
            assert(d.take(i + 1 - first).last() == c);
            assert(next == decimal_value(d.take(i + 1 - first)));
        }
        if next > max as u128 {
            proof {
                lemma_prefix_value(d, i + 1 - first);
            }
            return None;
        }
        acc = next as u64;
        i = i + 1;
    }
    assert(d.take(i - first) =~= d);
    Some(acc)
}

} // verus!
