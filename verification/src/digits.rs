//! Numbers as text.

use crate::text::chars_of;
use vstd::prelude::*;

verus! {

// ── decimal ──────────────────────────────────────────────────────────────────

/// The decimal digit of `d`.
pub open spec fn digit(d: nat) -> char {
    ('0' as u32 + d) as char
}

/// `n` in decimal, without leading zeros.
pub open spec fn decimal_text(n: nat) -> Seq<char>
    decreases n,
{
    if n < 10 {
        seq![digit(n)]
    } else {
        decimal_text(n / 10).push(digit(n % 10))
    }
}

fn digit_char(d: u8) -> (r: char)
    requires
        d < 10,
    ensures
        r == digit(d as nat),
{
    (48u8 + d) as char
}

/// Writes `n` in decimal.
pub fn decimal(n: u64) -> (r: String)
    ensures
        r@ == decimal_text(n as nat),
    decreases n,
{
    if n < 10 {
        let mut r: String = String::new();
        r.push(digit_char(n as u8));
        proof {
            assert(r@ =~= decimal_text(n as nat));
        }
        r
    } else {
        let mut r: String = decimal(n / 10);
        r.push(digit_char((n % 10) as u8));
        r
    }
}

/// `count` zeros.
pub open spec fn zeros(count: nat) -> Seq<char> {
    Seq::new(count, |i: int| '0')
}

/// `n` in decimal, with leading zeros up to `width` digits.
pub open spec fn padded_text(n: nat, width: nat) -> Seq<char> {
    let d = decimal_text(n);
    if d.len() >= width {
        d
    } else {
        zeros((width - d.len()) as nat) + d
    }
}

/// Writes `n` in decimal with leading zeros up to `width` digits.
pub fn padded(n: u64, width: usize) -> (r: String)
    ensures
        r@ == padded_text(n as nat, width as nat),
{
    let d = decimal(n);
    let chars = chars_of(d.as_str());
    let mut r: String = String::new();
    let mut len: usize = chars.len();
    let ghost given = chars@.len();
    proof {
        assert(zeros(0) =~= r@);
    }
    while len < width
        invariant
            given <= len,
            len <= width || len == given,
            r@ == zeros((len - given) as nat),
        decreases width - len,
    {
        r.push('0');
        len += 1;
        proof {
            assert(r@ =~= zeros((len - given) as nat));
        }
    }
    r.append(d.as_str());
    proof {
        assert(zeros(0) + d@ =~= d@);
    }
    r
}

pub open spec fn is_digit(c: char) -> bool {
    '0' <= c <= '9'
}

/// The number that a list of decimal digits stands for.
pub open spec fn decimal_value(s: Seq<char>) -> nat
    decreases s.len(),
{
    if s.len() == 0 {
        0
    } else {
        decimal_value(s.drop_last()) * 10 + (s.last() as nat - '0' as nat) as nat
    }
}

/// The digits of an unsigned number: an optional plus sign before them is skipped.
pub open spec fn unsigned_digits(s: Seq<char>) -> Seq<char> {
    if s.len() > 0 && s[0] == '+' {
        s.skip(1)
    } else {
        s
    }
}

/// The unsigned number that `s` writes, if it writes one of at most `max`.
pub open spec fn unsigned_of(s: Seq<char>, max: nat) -> Option<nat> {
    let d = unsigned_digits(s);
    if d.len() > 0 && (forall|i: int| 0 <= i < d.len() ==> is_digit(#[trigger] d[i]))
        && decimal_value(d) <= max {
        Some(decimal_value(d))
    } else {
        None
    }
}

proof fn lemma_decimal_value_grows(s: Seq<char>, k: int)
    requires
        0 <= k <= s.len(),
        forall|i: int| 0 <= i < s.len() ==> is_digit(#[trigger] s[i]),
    ensures
        decimal_value(s.take(k)) <= decimal_value(s),
    decreases s.len(),
{
    if k < s.len() {
        let rest = s.drop_last();
        assert forall|i: int| 0 <= i < rest.len() implies is_digit(#[trigger] rest[i]) by {
            assert(is_digit(s[i]));
        }
        lemma_decimal_value_grows(rest, k);
        assert(rest.take(k) =~= s.take(k));
        assert(is_digit(s[s.len() - 1]));
    } else {
        assert(s.take(k) =~= s);
    }
}

/// Reads an unsigned decimal number of at most `max`.
pub fn parse_unsigned(s: &str, max: u64) -> (r: Option<u64>)
    ensures
        match r {
            Some(v) => unsigned_of(s@, max as nat) == Some(v as nat),
            None => unsigned_of(s@, max as nat) is None,
        },
{
    let chars = chars_of(s);
    let first: usize = if chars.len() > 0 && chars[0] == '+' {
        1
    } else {
        0
    };
    let ghost d = unsigned_digits(s@);
    proof {
        if first == 0 {
            assert(s@.skip(0) =~= s@);
        }
        assert(d == s@.skip(first as int));
    }
    if chars.len() == first {
        return None;
    }
    let mut value: u64 = 0;
    let mut i: usize = first;
    proof {
        assert(d.take(0) =~= Seq::empty());
    }
    while i < chars.len()
        invariant
            chars@ == s@,
            d == unsigned_digits(s@),
            d == s@.skip(first as int),
            first <= i <= chars@.len(),
            value == decimal_value(d.take(i - first)),
            value <= max,
            forall|j: int| 0 <= j < i - first ==> is_digit(#[trigger] d[j]),
        decreases chars@.len() - i,
    {
        let c: char = chars[i];
        proof {
            assert(d[i - first] == c);
            assert(d.take(i - first + 1).drop_last() =~= d.take(i - first));
        }
        if c < '0' || '9' < c {
            proof {
                assert(!is_digit(d[i - first]));
            }
            return None;
        }
        let v: u64 = (c as u32 - 48) as u64;
        let ghost done = i - first + 1;
        if value > (u64::MAX - v) / 10 || value * 10 + v > max {
            proof {
                assert(decimal_value(d.take(done)) > max) by {
                    assert(decimal_value(d.take(done)) == value * 10 + v);
                }
                if forall|j: int| 0 <= j < d.len() ==> is_digit(#[trigger] d[j]) {
                    lemma_decimal_value_grows(d, done);
                }
            }
            return None;
        }
        value = value * 10 + v;
        i += 1;
    }
    proof {
        assert(d.take(i - first) =~= d);
    }
    Some(value)
}

/// The decimal text of a number is digits, and its value is the number.
pub proof fn lemma_decimal_round_trip(n: nat)
    ensures
        decimal_value(decimal_text(n)) == n,
        decimal_text(n).len() > 0,
        forall|i: int| 0 <= i < decimal_text(n).len() ==> is_digit(#[trigger] decimal_text(n)[i]),
    decreases n,
{
    let s = decimal_text(n);
    if n < 10 {
        assert(s.drop_last() =~= Seq::empty());
        assert(decimal_value(s.drop_last()) == 0);
    } else {
        lemma_decimal_round_trip(n / 10);
        assert(s.drop_last() =~= decimal_text(n / 10));
        assert forall|i: int| 0 <= i < s.len() implies is_digit(#[trigger] s[i]) by {
            if i < s.len() - 1 {
                assert(s[i] == decimal_text(n / 10)[i]);
            }
        }
    }
}

// ── hexadecimal ──────────────────────────────────────────────────────────────

/// The lower-case hexadecimal digit of `d`.
pub open spec fn hex_digit(d: nat) -> char {
    if d < 10 {
        ('0' as u32 + d) as char
    } else {
        ('a' as u32 + (d - 10)) as char
    }
}

/// The last `count` hexadecimal digits of `n`.
pub open spec fn hex_text(n: nat, count: nat) -> Seq<char>
    decreases count,
{
    if count == 0 {
        Seq::empty()
    } else {
        hex_text(n / 16, (count - 1) as nat).push(hex_digit(n % 16))
    }
}

pub open spec fn is_hex_digit(c: char) -> bool {
    '0' <= c <= '9' || 'a' <= c <= 'f' || 'A' <= c <= 'F'
}

pub open spec fn hex_digit_value(c: char) -> nat {
    if '0' <= c <= '9' {
        (c as nat - '0' as nat) as nat
    } else if 'a' <= c <= 'f' {
        (c as nat - 'a' as nat + 10) as nat
    } else {
        (c as nat - 'A' as nat + 10) as nat
    }
}

/// The number that a list of hexadecimal digits stands for.
pub open spec fn hex_value(s: Seq<char>) -> nat
    decreases s.len(),
{
    if s.len() == 0 {
        0
    } else {
        hex_value(s.drop_last()) * 16 + hex_digit_value(s.last())
    }
}

fn hex_char(d: u8) -> (r: char)
    requires
        d < 16,
    ensures
        r == hex_digit(d as nat),
{
    if d < 10 {
        (48u8 + d) as char
    } else {
        (97u8 + (d - 10)) as char
    }
}

fn hex_digits(n: u32, count: usize) -> (r: String)
    ensures
        r@ == hex_text(n as nat, count as nat),
    decreases count,
{
    if count == 0 {
        String::new()
    } else {
        let mut r: String = hex_digits(n / 16, count - 1);
        r.push(hex_char((n % 16) as u8));
        r
    }
}

/// Writes `n` as eight hexadecimal digits.
pub fn hex8(n: u32) -> (r: String)
    ensures
        r@ == hex_text(n as nat, 8),
{
    hex_digits(n, 8)
}

/// A text of eight hexadecimal digits.
pub open spec fn is_hex8(s: Seq<char>) -> bool {
    s.len() == 8 && forall|i: int| 0 <= i < s.len() ==> is_hex_digit(#[trigger] s[i])
}

/// Reads eight hexadecimal digits.
pub fn parse_hex8(s: &str) -> (r: Option<u32>)
    ensures
        match r {
            Some(v) => is_hex8(s@) && v == hex_value(s@),
            None => !is_hex8(s@),
        },
{
    let chars = chars_of(s);
    if chars.len() != 8 {
        return None;
    }
    let mut value: u64 = 0;
    let mut i: usize = 0;
    proof {
        assert(s@.take(0) =~= Seq::empty());
        vstd::arithmetic::power::lemma_pow0(16);
    }
    while i < 8
        invariant
            chars@ == s@,
            s@.len() == 8,
            i <= 8,
            value == hex_value(s@.take(i as int)),
            value < vstd::arithmetic::power::pow(16, i as nat) <= 0x1_0000_0000,
            forall|j: int| 0 <= j < i ==> is_hex_digit(#[trigger] s@[j]),
        decreases 8 - i,
    {
        let c: char = chars[i];
        let v: u64 = if '0' <= c && c <= '9' {
            (c as u32 - 48) as u64
        } else if 'a' <= c && c <= 'f' {
            (c as u32 - 87) as u64
        } else if 'A' <= c && c <= 'F' {
            (c as u32 - 55) as u64
        } else {
            return None;
        };
        proof {
            assert(s@.take(i + 1).drop_last() =~= s@.take(i as int));
            assert(hex_digit_value(c) == v);
            lemma_powers_of_16();
            reveal(vstd::arithmetic::power::pow);
        }
        value = value * 16 + v;
        i += 1;
    }
    proof {
        assert(s@.take(8) =~= s@);
        lemma_powers_of_16();
    }
    Some(value as u32)
}

proof fn lemma_powers_of_16()
    ensures
        forall|k: nat| k <= 8 ==> #[trigger] vstd::arithmetic::power::pow(16, k) <= 0x1_0000_0000,
        vstd::arithmetic::power::pow(16, 8) == 0x1_0000_0000,
{
    reveal_with_fuel(vstd::arithmetic::power::pow, 9);
    assert forall|k: nat| k <= 8 implies #[trigger] vstd::arithmetic::power::pow(16, k)
        <= 0x1_0000_0000 by {
        vstd::arithmetic::power::lemma_pow_increases(16, k, 8);
    }
}

/// Writing a number as eight hexadecimal digits and reading it back gives the number.
pub proof fn lemma_hex_round_trip(n: u32)
    ensures
        is_hex8(hex_text(n as nat, 8)),
        hex_value(hex_text(n as nat, 8)) == n,
{
    lemma_hex_text(n as nat, 8);
    lemma_powers_of_16();
}

proof fn lemma_hex_text(n: nat, count: nat)
    ensures
        hex_text(n, count).len() == count,
        forall|i: int| 0 <= i < count ==> is_hex_digit(#[trigger] hex_text(n, count)[i]),
        n < vstd::arithmetic::power::pow(16, count) ==> hex_value(hex_text(n, count)) == n,
    decreases count,
{
    vstd::arithmetic::power::lemma_pow0(16);
    if count > 0 {
        let rest = hex_text(n / 16, (count - 1) as nat);
        lemma_hex_text(n / 16, (count - 1) as nat);
        assert(hex_text(n, count).drop_last() =~= rest);
        reveal(vstd::arithmetic::power::pow);
        assert(hex_digit_value(hex_digit(n % 16)) == n % 16);
    }
}

/// A number in decimal is read back where it is not beyond the greatest one, with a plus sign before
/// it or without.
pub proof fn law_decimal_is_read_back(n: nat, max: nat)
    ensures
        unsigned_of(decimal_text(n), max) == (if n <= max {
            Some(n)
        } else {
            None
        }),
        unsigned_of(seq!['+'] + decimal_text(n), max) == (if n <= max {
            Some(n)
        } else {
            None
        }),
{
    let d = decimal_text(n);
    lemma_decimal_round_trip(n);
    assert(is_digit(d[0]));
    assert(unsigned_digits(d) == d);
    assert((seq!['+'] + d).skip(1) =~= d);
}

/// Nothing is no number, nor is a text with anything but digits behind its plus sign, if it has one.
pub proof fn law_other_texts_are_no_numbers(s: Seq<char>, max: nat, i: int)
    requires
        s.len() == 0 || (0 <= i < s.len() && !('0' <= s[i] <= '9') && (i > 0 || s[i] != '+')),
    ensures
        unsigned_of(s, max) is None,
{
    if s.len() > 0 {
        let d = unsigned_digits(s);
        if s[0] == '+' {
            assert(d[i - 1] == s[i]);
        } else {
            assert(d[i] == s[i]);
        }
    }
}

/// A padded number is as wide as asked for, with zeros before it, or as wide as it is.
pub proof fn law_padding_is_zeros(n: nat, width: nat)
    ensures
        ({
            let d = decimal_text(n);
            let p = padded_text(n, width);
            &&& p.len() == (if d.len() < width {
                width
            } else {
                d.len()
            })
            &&& p.subrange(p.len() - d.len(), p.len() as int) == d
            &&& forall|i: int| 0 <= i < p.len() - d.len() ==> #[trigger] p[i] == '0'
        }),
{
    let d = decimal_text(n);
    let p = padded_text(n, width);
    assert(p.subrange(p.len() - d.len(), p.len() as int) =~= d);
}

} // verus!
