//! The property panel's colour fields: decimal text read as colour
//! channels, the way the panel applies them to the selected part.

use vstd::prelude::*;
use crate::game_engine::Srgba;

verus! {

/// An ASCII decimal digit.
pub open spec fn is_digit(c: char) -> bool {
    '0' <= c && c <= '9'
}

/// The value of a string of decimal digits, most significant first.
pub open spec fn digits_value(s: Seq<char>) -> int
    decreases s.len(),
{
    if s.len() == 0 {
        0
    } else {
        digits_value(s.drop_last()) * 10 + (s.last() as int - '0' as int)
    }
}

/// The text without one leading `+`, where it has one.
pub open spec fn without_plus(s: Seq<char>) -> Seq<char> {
    if s.len() > 0 && s[0] == '+' {
        s.drop_first()
    } else {
        s
    }
}

/// What reading `s` as a `u8` gives: an optional `+`, then one or more
/// decimal digits whose value is at most 255; anything else is refused.
pub open spec fn u8_from_text(s: Seq<char>) -> Option<u8> {
    let d = without_plus(s);
    if d.len() > 0 && (forall|i: int| 0 <= i < d.len() ==> is_digit(#[trigger] d[i]))
        && digits_value(d) <= 255 {
        Some(digits_value(d) as u8)
    } else {
        None
    }
}

/// The channel a colour field stands for: its value, or 0 where the text
/// is refused.
pub open spec fn channel_value(s: Seq<char>) -> u8 {
    match u8_from_text(s) {
        Some(v) => v,
        None => 0,
    }
}

/// A longer run of digits is worth at least as much as its prefix.
proof fn lemma_digits_value_grows(s: Seq<char>, j: int)
    requires
        0 <= j <= s.len(),
        forall|i: int| 0 <= i < s.len() ==> is_digit(#[trigger] s[i]),
    ensures
        digits_value(s) >= digits_value(s.take(j)),
        digits_value(s.take(j)) >= 0,
    decreases s.len() - j,
{
    if j == s.len() {
        assert(s.take(j) =~= s);
        lemma_digits_value_nonneg(s);
    } else {
        assert(s.drop_last().take(j) =~= s.take(j));
        assert(s.last() == s[s.len() - 1]);
        lemma_digits_value_grows(s.drop_last(), j);
    }
}

/// A run of digits is worth at least 0.
proof fn lemma_digits_value_nonneg(s: Seq<char>)
    requires
        forall|i: int| 0 <= i < s.len() ==> is_digit(#[trigger] s[i]),
    ensures
        digits_value(s) >= 0,
    decreases s.len(),
{
    if s.len() > 0 {
        assert(s.last() == s[s.len() - 1]);
        lemma_digits_value_nonneg(s.drop_last());
    }
}

/// Reads a colour field: the `u8` that the text spells, or 0 where the
/// text is not one.
pub fn parse_channel(text: &str) -> (v: u8)
    ensures
        v == channel_value(text@),
        ({
            let d = without_plus(text@);
            (d.len() > 0 && forall|i: int| 0 <= i < d.len() ==> is_digit(#[trigger] d[i])) ==> v as int == (
            if digits_value(d) <= 255 {
                digits_value(d)
            } else {
                0
            })
        }),
{
    let len = text.unicode_len();
    let start: usize = if len > 0 && text.get_char(0) == '+' { 1 } else { 0 };
    let ghost d = without_plus(text@);
    assert(d =~= text@.subrange(start as int, len as int));
    if start == len {
        return 0;
    }
    let mut acc: u32 = 0;
    let mut i: usize = start;
    assert(d.take(0) =~= Seq::<char>::empty());
    while i < len
        invariant
            start <= i <= len,
            len == text@.len(),
            d == text@.subrange(start as int, len as int),
            d == without_plus(text@),
            d.len() > 0,
            forall|k: int| 0 <= k < i - start ==> is_digit(#[trigger] d[k]),
            acc as int == digits_value(d.take(i - start)),
            acc <= 255,
        decreases len - i,
    {
        let c = text.get_char(i);
        assert(d[i - start] == c);
        if c < '0' || c > '9' {
            assert(!is_digit(d[i - start]));
            assert(!(forall|k: int| 0 <= k < d.len() ==> is_digit(#[trigger] d[k])));
            assert(u8_from_text(text@) is None);
            return 0;
        }
        let digit = (c as u32) - ('0' as u32);
        assert(d.take(i - start + 1).drop_last() =~= d.take(i - start));
        assert(d.take(i - start + 1).last() == c);
        acc = acc * 10 + digit;
        i = i + 1;
        if acc > 255 {
            proof {
                if forall|k: int| 0 <= k < d.len() ==> is_digit(#[trigger] d[k]) {
                    lemma_digits_value_grows(d, i - start);
                    assert(digits_value(d) > 255);
                }
                assert(u8_from_text(text@) is None);
            }
            return 0;
        }
    }
    assert(d.take(d.len() as int) =~= d);
    acc as u8
}

/// The colour the panel's three fields give, fully opaque.
pub fn color_from_fields(red: &str, green: &str, blue: &str) -> (c: Srgba)
    ensures
        c == (Srgba {
            r: channel_value(red@),
            g: channel_value(green@),
            b: channel_value(blue@),
            a: 255,
        }),
{
    Srgba { r: parse_channel(red), g: parse_channel(green), b: parse_channel(blue), a: 255 }
}

/// Ten to the power `n`.
pub open spec fn pow10(n: nat) -> int
    decreases n,
{
    if n == 0 {
        1
    } else {
        10 * pow10((n - 1) as nat)
    }
}

/// Decimal place value: the digits of `s` followed by those of `t` are
/// worth `s` shifted left by the length of `t`, plus `t`.
pub proof fn law_digits_place_value(s: Seq<char>, t: Seq<char>)
    ensures
        digits_value(s + t) == digits_value(s) * pow10(t.len()) + digits_value(t),
    decreases t.len(),
{
    if t.len() == 0 {
        assert(s + t =~= s);
    } else {
        let t1 = t.drop_last();
        assert((s + t).drop_last() =~= s + t1);
        assert((s + t).last() == t.last());
        law_digits_place_value(s, t1);
        let a = digits_value(s);
        let p = pow10(t1.len());
        let b = digits_value(t1);
        let d = t.last() as int - '0' as int;
        assert((a * p + b) * 10 + d == a * (10 * p) + (b * 10 + d)) by (nonlinear_arith);
    }
}

/// A channel read from text is the full decimal value of its digits:
/// where a value is read it equals the digits' value, and digits worth
/// more than 255 read as 0.
pub proof fn law_channel_full_value(s: Seq<char>)
    ensures
        u8_from_text(s) matches Some(v) ==> digits_value(without_plus(s)) == v as int,
        ({
            let d = without_plus(s);
            (d.len() > 0 && (forall|i: int| 0 <= i < d.len() ==> is_digit(#[trigger] d[i]))
                && digits_value(d) > 255) ==> channel_value(s) == 0
        }),
        ({
            let d = without_plus(s);
            (d.len() > 0 && (forall|i: int| 0 <= i < d.len() ==> is_digit(#[trigger] d[i]))
                && digits_value(d) <= 255) ==> channel_value(s) as int == digits_value(d)
        }),
{
    let d = without_plus(s);
    if d.len() > 0 && (forall|i: int| 0 <= i < d.len() ==> is_digit(#[trigger] d[i])) {
        lemma_digits_value_nonneg(d);
    }
}

} // verus!
