//! Integers as text: base ten, ASCII digits, a leading `-` for a negative
//! number. Reading also takes a leading `+` and leading zeros.

use vstd::prelude::*;

verus! {

/// The byte `-`.
pub const MINUS: u8 = 45;

/// The byte `+`.
pub const PLUS: u8 = 43;

/// The byte `0`.
pub const ZERO: u8 = 48;

/// Whether `b` is one of the bytes `0` to `9`.
pub open spec fn is_digit(b: u8) -> bool {
    48 <= b <= 57
}

/// Whether every byte of `s` is a digit.
pub open spec fn all_digits(s: Seq<u8>) -> bool {
    forall|i: int| 0 <= i < s.len() ==> is_digit(#[trigger] s[i])
}

/// The number that a run of digits spells, most significant digit first.
pub open spec fn digits_value(s: Seq<u8>) -> nat
    decreases s.len(),
{
    if s.len() == 0 {
        0
    } else {
        digits_value(s.drop_last()) * 10 + (s.last() - 48) as nat
    }
}

/// The digits of `n`, most significant first, with no leading zero.
pub open spec fn digits_of(n: nat) -> Seq<u8>
    decreases n,
{
    if n < 10 {
        seq![(48 + n) as u8]
    } else {
        digits_of(n / 10).push((48 + n % 10) as u8)
    }
}

/// The text of an integer: its digits, after a `-` if it is negative.
pub open spec fn decimal_text(i: int) -> Seq<u8> {
    if i < 0 {
        seq![MINUS] + digits_of((-i) as nat)
    } else {
        digits_of(i as nat)
    }
}

/// The number spelled by a run of one or more digits.
pub open spec fn number_of(digits: Seq<u8>) -> Option<nat> {
    if digits.len() > 0 && all_digits(digits) {
        Some(digits_value(digits))
    } else {
        None
    }
}

/// The integer that `text` spells: an optional sign, then one or more
/// digits. A `-` is a sign only where `signed` holds.
pub open spec fn parse_decimal(text: Seq<u8>, signed: bool) -> Option<int> {
    if text.len() > 0 && text[0] == PLUS {
        match number_of(text.drop_first()) {
            Some(n) => Some(n as int),
            None => None,
        }
    } else if signed && text.len() > 0 && text[0] == MINUS {
        match number_of(text.drop_first()) {
            Some(n) => Some(-(n as int)),
            None => None,
        }
    } else {
        match number_of(text) {
            Some(n) => Some(n as int),
            None => None,
        }
    }
}

/// The integer that `text` spells, if it lies between `min` and `max`.
pub open spec fn parse_bounded(text: Seq<u8>, signed: bool, min: int, max: int) -> Option<int> {
    match parse_decimal(text, signed) {
        Some(v) => if min <= v <= max {
            Some(v)
        } else {
            None
        },
        None => None,
    }
}

/// Ten to the power `k`.
pub open spec fn pow10(k: nat) -> nat
    decreases k,
{
    if k == 0 {
        1
    } else {
        10 * pow10((k - 1) as nat)
    }
}

/// A longer run of digits spells no smaller a number than its start does.
pub proof fn lemma_value_grows(s: Seq<u8>, k: int)
    requires
        0 <= k <= s.len(),
    ensures
        digits_value(s.take(k)) <= digits_value(s),
    decreases s.len() - k,
{
    if k == s.len() {
        assert(s.take(k) =~= s);
    } else {
        lemma_value_grows(s.drop_last(), k);
        assert(s.drop_last().take(k) =~= s.take(k));
    }
}

/// The digits written for `n` are digits, at least one of them, and spell
/// `n`.
pub proof fn lemma_digits_spell(n: nat)
    ensures
        digits_of(n).len() > 0,
        all_digits(digits_of(n)),
        digits_value(digits_of(n)) == n,
        number_of(digits_of(n)) == Some(n),
    decreases n,
{
    if n < 10 {
        assert(digits_value(digits_of(n).drop_last()) == 0);
    } else {
        lemma_digits_spell(n / 10);
        assert(digits_of(n).drop_last() =~= digits_of(n / 10));
    }
}

/// A number below ten to the `k` has at most `k` digits.
pub proof fn lemma_digits_len(n: nat, k: nat)
    requires
        k >= 1,
        n < pow10(k),
    ensures
        digits_of(n).len() <= k,
    decreases k,
{
    if n >= 10 {
        assert(pow10(1) == 10) by {
            reveal_with_fuel(pow10, 2);
        }
        lemma_digits_len(n / 10, (k - 1) as nat);
    }
}

/// The text of a 64-bit integer is at most twenty bytes long.
pub proof fn lemma_decimal_text_len(i: int)
    requires
        -0x8000_0000_0000_0000 <= i <= 0xffff_ffff_ffff_ffff,
    ensures
        1 <= decimal_text(i).len() <= 20,
{
    assert(pow10(20) == 100_000_000_000_000_000_000) by {
        reveal_with_fuel(pow10, 21);
    }
    assert(pow10(19) == 10_000_000_000_000_000_000) by {
        reveal_with_fuel(pow10, 20);
    }
    if i < 0 {
        lemma_digits_len((-i) as nat, 19);
        lemma_digits_spell((-i) as nat);
    } else {
        lemma_digits_len(i as nat, 20);
        lemma_digits_spell(i as nat);
    }
}

/// Reading the text written for an integer gives that integer.
pub proof fn lemma_decimal_round_trip(i: int, signed: bool)
    requires
        signed || i >= 0,
    ensures
        parse_decimal(decimal_text(i), signed) == Some(i),
{
    let text = decimal_text(i);
    if i < 0 {
        let n = (-i) as nat;
        lemma_digits_spell(n);
        assert(text.drop_first() =~= digits_of(n));
    } else {
        lemma_digits_spell(i as nat);
    }
}

/// Appends the digits of `n` to `out`.
pub fn push_digits(n: u64, out: &mut Vec<u8>)
    ensures
        final(out)@ == old(out)@ + digits_of(n as nat),
    decreases n,
{
    if n >= 10 {
        push_digits(n / 10, out);
    }
    let digit: u8 = (n % 10) as u8;
    out.push(ZERO + digit);
}

/// The text of an unsigned integer.
pub fn u64_to_decimal(v: u64) -> (text: Vec<u8>)
    ensures
        text@ == decimal_text(v as int),
{
    let mut text: Vec<u8> = Vec::new();
    push_digits(v, &mut text);
    text
}

/// The text of a signed integer.
pub fn i64_to_decimal(v: i64) -> (text: Vec<u8>)
    ensures
        text@ == decimal_text(v as int),
{
    let mut text: Vec<u8> = Vec::new();
    if v < 0 {
        text.push(MINUS);
        let magnitude: u64 = (-(v + 1)) as u64 + 1;
        push_digits(magnitude, &mut text);
    } else {
        push_digits(v as u64, &mut text);
    }
    text
}

/// The number spelled by the digits of `text` from `start` on, where it is
/// at most `limit`.
fn parse_digits(text: &[u8], start: usize, limit: u64) -> (result: Option<u64>)
    requires
        start <= text@.len(),
    ensures
        result == match number_of(text@.subrange(start as int, text@.len() as int)) {
            Some(n) => if n <= limit {
                Some(n as u64)
            } else {
                None
            },
            None => None,
        },
{
    let ghost digits = text@.subrange(start as int, text@.len() as int);
    let mut acc: u64 = 0;
    let mut i: usize = start;
    while i < text.len()
        invariant
            start <= i <= text@.len(),
            digits == text@.subrange(start as int, text@.len() as int),
            all_digits(digits.take(i - start)),
            acc == digits_value(digits.take(i - start)),
            acc <= limit,
        decreases text@.len() - i,
    {
        let b: u8 = text[i];
        if b < 48 || b > 57 {
            assert(!is_digit(digits[i - start]));
            return None;
        }
        let d: u64 = (b - 48) as u64;
        proof {
            let longer = digits.take(i - start + 1);
            assert(longer.drop_last() =~= digits.take(i - start));
            lemma_value_grows(digits, i - start + 1);
            assert forall|j: int| 0 <= j < longer.len() implies is_digit(#[trigger] longer[j]) by {
                if j < i - start {
                    assert(longer[j] == digits.take(i - start)[j]);
                }
            }
        }
        if limit < d || acc > (limit - d) / 10 {
            return None;
        }
        acc = acc * 10 + d;
        i += 1;
    }
    assert(digits.take(i - start) =~= digits);
    if i == start {
        None
    } else {
        Some(acc)
    }
}

/// The unsigned integer that `text` spells, where it is at most `max`.
pub fn parse_unsigned(text: &[u8], max: u64) -> (result: Option<u64>)
    ensures
        result == match parse_bounded(text@, false, 0, max as int) {
            Some(v) => Some(v as u64),
            None => None,
        },
{
    let start: usize = if text.len() > 0 && text[0] == PLUS {
        1
    } else {
        0
    };
    assert(text@.subrange(0, text@.len() as int) =~= text@);
    parse_digits(text, start, max)
}

/// The signed integer that `text` spells, where it lies between `min` and
/// `max`.
pub fn parse_signed(text: &[u8], min: i64, max: i64) -> (result: Option<i64>)
    ensures
        result == match parse_bounded(text@, true, min as int, max as int) {
            Some(v) => Some(v as i64),
            None => None,
        },
{
    assert(text@.subrange(0, text@.len() as int) =~= text@);
    let value: i64 = if text.len() > 0 && text[0] == MINUS {
        match parse_digits(text, 1, 0x8000_0000_0000_0000) {
            Some(magnitude) => if magnitude == 0 {
                0
            } else {
                -((magnitude - 1) as i64) - 1
            },
            None => { return None; },
        }
    } else {
        let start: usize = if text.len() > 0 && text[0] == PLUS {
            1
        } else {
            0
        };
        match parse_digits(text, start, 0x7fff_ffff_ffff_ffff) {
            Some(magnitude) => magnitude as i64,
            None => { return None; },
        }
    };
    if min <= value && value <= max {
        Some(value)
    } else {
        None
    }
}

} // verus!
