//! The timestamp wire codec.
//!
//! A [`Timestamp`](crate::time::Timestamp) travels as the fixed 24-character text
//! `YYYY-MM-DDTHH:MM:SS.mmmZ`.  [`spec_encode`] is the mathematical
//! definition of that text; [`encode_timestamp`] produces exactly it and
//! [`decode_timestamp`] accepts exactly it, so encoding then decoding
//! reproduces the same instant ([`lemma_encode_injective`]).

use vstd::prelude::*;
use vstd::arithmetic::div_mod::{
    lemma_fundamental_div_mod_converse_div, lemma_fundamental_div_mod_converse_mod,
};
use crate::time::Timestamp;
use crate::types::TaskError;

verus! {

/// The decimal digit characters.
pub open spec fn digit(d: int) -> char {
    if d == 0 {
        '0'
    } else if d == 1 {
        '1'
    } else if d == 2 {
        '2'
    } else if d == 3 {
        '3'
    } else if d == 4 {
        '4'
    } else if d == 5 {
        '5'
    } else if d == 6 {
        '6'
    } else if d == 7 {
        '7'
    } else if d == 8 {
        '8'
    } else {
        '9'
    }
}

/// The character at position `i` of the encoded form of `t`.
pub open spec fn enc_char(t: Timestamp, i: int) -> char {
    if i == 0 {
        digit(t.year as int / 1000)
    } else if i == 1 {
        digit((t.year as int / 100) % 10)
    } else if i == 2 {
        digit((t.year as int / 10) % 10)
    } else if i == 3 {
        digit(t.year as int % 10)
    } else if i == 4 {
        '-'
    } else if i == 5 {
        digit(t.month as int / 10)
    } else if i == 6 {
        digit(t.month as int % 10)
    } else if i == 7 {
        '-'
    } else if i == 8 {
        digit(t.day as int / 10)
    } else if i == 9 {
        digit(t.day as int % 10)
    } else if i == 10 {
        'T'
    } else if i == 11 {
        digit(t.hour as int / 10)
    } else if i == 12 {
        digit(t.hour as int % 10)
    } else if i == 13 {
        ':'
    } else if i == 14 {
        digit(t.minute as int / 10)
    } else if i == 15 {
        digit(t.minute as int % 10)
    } else if i == 16 {
        ':'
    } else if i == 17 {
        digit(t.second as int / 10)
    } else if i == 18 {
        digit(t.second as int % 10)
    } else if i == 19 {
        '.'
    } else if i == 20 {
        digit(t.milli as int / 100)
    } else if i == 21 {
        digit((t.milli as int / 10) % 10)
    } else if i == 22 {
        digit(t.milli as int % 10)
    } else {
        'Z'
    }
}

/// The canonical wire text of `t`: `YYYY-MM-DDTHH:MM:SS.mmmZ`.
pub open spec fn spec_encode(t: Timestamp) -> Seq<char> {
    Seq::new(24, |i: int| enc_char(t, i))
}

/// Relies on `String::push`: appends the given character to the end of
/// the string.
#[verifier::external_body]
fn push_char(s: &mut String, c: char)
    ensures
        final(s)@ == old(s)@.push(c),
{
    s.push(c)
}

/// The character for one decimal digit.
fn digit_char(d: u8) -> (c: char)
    requires
        d < 10,
    ensures
        c == digit(d as int),
{
    match d {
        0 => '0',
        1 => '1',
        2 => '2',
        3 => '3',
        4 => '4',
        5 => '5',
        6 => '6',
        7 => '7',
        8 => '8',
        _ => '9',
    }
}

/// The decimal value of a digit character, or `None` for any other
/// character.
fn char_digit(c: char) -> (r: Option<u8>)
    ensures
        match r {
            Some(d) => d < 10 && c == digit(d as int),
            None => forall|d: int| 0 <= d < 10 ==> c != digit(d),
        },
{
    match c {
        '0' => Some(0),
        '1' => Some(1),
        '2' => Some(2),
        '3' => Some(3),
        '4' => Some(4),
        '5' => Some(5),
        '6' => Some(6),
        '7' => Some(7),
        '8' => Some(8),
        '9' => Some(9),
        _ => None,
    }
}

fn push_digit(s: &mut String, d: u8)
    requires
        d < 10,
    ensures
        final(s)@ == old(s)@.push(digit(d as int)),
{
    let c = digit_char(d);
    push_char(s, c);
}

/// `q` and `r` are the quotient and remainder of `n` by `base`.
proof fn lemma_split(n: int, q: int, r: int, base: int)
    requires
        base > 0,
        0 <= r < base,
        n == q * base + r,
    ensures
        n / base == q,
        n % base == r,
{
    lemma_fundamental_div_mod_converse_div(n, base, q, r);
    lemma_fundamental_div_mod_converse_mod(n, base, q, r);
}

/// The digits of a number below 100, read back, give the number.
proof fn lemma_digits2(n: int)
    requires
        0 <= n < 100,
    ensures
        0 <= n / 10 < 10,
        0 <= n % 10 < 10,
        n == (n / 10) * 10 + n % 10,
{
    lemma_split(n, n / 10, n - (n / 10) * 10, 10);
}

/// The digits of a number below 1000, read back, give the number.
proof fn lemma_digits3(n: int)
    requires
        0 <= n < 1000,
    ensures
        0 <= n / 100 < 10,
        0 <= (n / 10) % 10 < 10,
        0 <= n % 10 < 10,
        n == (n / 100) * 100 + ((n / 10) % 10) * 10 + n % 10,
{
    lemma_split(n, n / 100, n - (n / 100) * 100, 100);
    let rest = n % 100;
    lemma_split(n, n / 10, n - (n / 10) * 10, 10);
    lemma_digits2(rest);
    lemma_split(n, (n / 100) * 10 + rest / 10, rest % 10, 10);
    lemma_split(n / 10, n / 100, (n / 10) - (n / 100) * 10, 10);
}

/// The digits of a number below 10000, read back, give the number.
proof fn lemma_digits4(n: int)
    requires
        0 <= n < 10000,
    ensures
        0 <= n / 1000 < 10,
        0 <= (n / 100) % 10 < 10,
        0 <= (n / 10) % 10 < 10,
        0 <= n % 10 < 10,
        n == (n / 1000) * 1000 + ((n / 100) % 10) * 100 + ((n / 10) % 10) * 10 + n % 10,
{
    lemma_split(n, n / 1000, n - (n / 1000) * 1000, 1000);
    let rest = n % 1000;
    lemma_digits3(rest);
    lemma_split(n, (n / 1000) * 10 + rest / 100, rest % 100, 100);
    lemma_split(n, (n / 1000) * 100 + rest / 10, rest % 10, 10);
    lemma_split(n / 100, n / 1000, (n / 100) - (n / 1000) * 10, 10);
    lemma_split(n / 10, n / 100, (n / 10) - (n / 100) * 10, 10);
}

/// Two decimal digits with the same character are the same digit.
proof fn lemma_digit_inj(a: int, b: int)
    requires
        0 <= a < 10,
        0 <= b < 10,
        digit(a) == digit(b),
    ensures
        a == b,
{
}

/// Two digits composed give a number below 100 whose quotient and
/// remainder by ten are those digits again.
proof fn lemma_compose2(d0: int, d1: int)
    requires
        0 <= d0 < 10,
        0 <= d1 < 10,
    ensures
        0 <= d0 * 10 + d1 < 100,
        (d0 * 10 + d1) / 10 == d0,
        (d0 * 10 + d1) % 10 == d1,
{
    lemma_split(d0 * 10 + d1, d0, d1, 10);
}

/// Three digits composed give back those digits.
proof fn lemma_compose3(d0: int, d1: int, d2: int)
    requires
        0 <= d0 < 10,
        0 <= d1 < 10,
        0 <= d2 < 10,
    ensures
        0 <= d0 * 100 + d1 * 10 + d2 < 1000,
        (d0 * 100 + d1 * 10 + d2) / 100 == d0,
        ((d0 * 100 + d1 * 10 + d2) / 10) % 10 == d1,
        (d0 * 100 + d1 * 10 + d2) % 10 == d2,
{
    let n = d0 * 100 + d1 * 10 + d2;
    lemma_split(n, d0, d1 * 10 + d2, 100);
    lemma_split(n, d0 * 10 + d1, d2, 10);
    lemma_split(d0 * 10 + d1, d0, d1, 10);
}

/// Four digits composed give back those digits.
proof fn lemma_compose4(d0: int, d1: int, d2: int, d3: int)
    requires
        0 <= d0 < 10,
        0 <= d1 < 10,
        0 <= d2 < 10,
        0 <= d3 < 10,
    ensures
        0 <= d0 * 1000 + d1 * 100 + d2 * 10 + d3 < 10000,
        (d0 * 1000 + d1 * 100 + d2 * 10 + d3) / 1000 == d0,
        ((d0 * 1000 + d1 * 100 + d2 * 10 + d3) / 100) % 10 == d1,
        ((d0 * 1000 + d1 * 100 + d2 * 10 + d3) / 10) % 10 == d2,
        (d0 * 1000 + d1 * 100 + d2 * 10 + d3) % 10 == d3,
{
    let n = d0 * 1000 + d1 * 100 + d2 * 10 + d3;
    lemma_split(n, d0, d1 * 100 + d2 * 10 + d3, 1000);
    lemma_split(n, d0 * 10 + d1, d2 * 10 + d3, 100);
    lemma_split(d0 * 10 + d1, d0, d1, 10);
    lemma_split(n, d0 * 100 + d1 * 10 + d2, d3, 10);
    lemma_split(d0 * 100 + d1 * 10 + d2, d0 * 10 + d1, d2, 10);
}

/// The wire text of a valid timestamp determines every field: if the
/// digit characters of `t`'s encoding are the digit characters of the
/// numbers `y`, `mo`, `d`, `h`, `mi`, `sec`, `ms`, then `t`'s fields are
/// exactly those numbers.
proof fn lemma_fields_from_digits(
    t: Timestamp,
    y: int,
    mo: int,
    d: int,
    h: int,
    mi: int,
    sec: int,
    ms: int,
)
    requires
        t.valid(),
        0 <= y < 10000,
        0 <= mo < 100,
        0 <= d < 100,
        0 <= h < 100,
        0 <= mi < 100,
        0 <= sec < 100,
        0 <= ms < 1000,
        digit(t.year as int / 1000) == digit(y / 1000),
        digit((t.year as int / 100) % 10) == digit((y / 100) % 10),
        digit((t.year as int / 10) % 10) == digit((y / 10) % 10),
        digit(t.year as int % 10) == digit(y % 10),
        digit(t.month as int / 10) == digit(mo / 10),
        digit(t.month as int % 10) == digit(mo % 10),
        digit(t.day as int / 10) == digit(d / 10),
        digit(t.day as int % 10) == digit(d % 10),
        digit(t.hour as int / 10) == digit(h / 10),
        digit(t.hour as int % 10) == digit(h % 10),
        digit(t.minute as int / 10) == digit(mi / 10),
        digit(t.minute as int % 10) == digit(mi % 10),
        digit(t.second as int / 10) == digit(sec / 10),
        digit(t.second as int % 10) == digit(sec % 10),
        digit(t.milli as int / 100) == digit(ms / 100),
        digit((t.milli as int / 10) % 10) == digit((ms / 10) % 10),
        digit(t.milli as int % 10) == digit(ms % 10),
    ensures
        t.year == y,
        t.month == mo,
        t.day == d,
        t.hour == h,
        t.minute == mi,
        t.second == sec,
        t.milli == ms,
{
    lemma_digits4(t.year as int);
    lemma_digits4(y);
    lemma_digit_inj(t.year as int / 1000, y / 1000);
    lemma_digit_inj((t.year as int / 100) % 10, (y / 100) % 10);
    lemma_digit_inj((t.year as int / 10) % 10, (y / 10) % 10);
    lemma_digit_inj(t.year as int % 10, y % 10);
    lemma_digits2(t.month as int);
    lemma_digits2(mo);
    lemma_digit_inj(t.month as int / 10, mo / 10);
    lemma_digit_inj(t.month as int % 10, mo % 10);
    lemma_digits2(t.day as int);
    lemma_digits2(d);
    lemma_digit_inj(t.day as int / 10, d / 10);
    lemma_digit_inj(t.day as int % 10, d % 10);
    lemma_digits2(t.hour as int);
    lemma_digits2(h);
    lemma_digit_inj(t.hour as int / 10, h / 10);
    lemma_digit_inj(t.hour as int % 10, h % 10);
    lemma_digits2(t.minute as int);
    lemma_digits2(mi);
    lemma_digit_inj(t.minute as int / 10, mi / 10);
    lemma_digit_inj(t.minute as int % 10, mi % 10);
    lemma_digits2(t.second as int);
    lemma_digits2(sec);
    lemma_digit_inj(t.second as int / 10, sec / 10);
    lemma_digit_inj(t.second as int % 10, sec % 10);
    lemma_digits3(t.milli as int);
    lemma_digits3(ms);
    lemma_digit_inj(t.milli as int / 100, ms / 100);
    lemma_digit_inj((t.milli as int / 10) % 10, (ms / 10) % 10);
    lemma_digit_inj(t.milli as int % 10, ms % 10);
}

/// The codec loses nothing: two valid timestamps with the same wire
/// text are the same instant.  Together with the contracts of
/// [`encode_timestamp`] and [`decode_timestamp`] this gives the round
/// trip: decoding an encoded timestamp returns exactly the timestamp
/// that was encoded.
pub proof fn lemma_encode_injective(a: Timestamp, b: Timestamp)
    requires
        a.valid(),
        b.valid(),
        spec_encode(a) == spec_encode(b),
    ensures
        a == b,
{
    assert(forall|i: int| 0 <= i < 24 ==> spec_encode(a)[i] == #[trigger] enc_char(a, i));
    assert(forall|i: int| 0 <= i < 24 ==> spec_encode(b)[i] == #[trigger] enc_char(b, i));
    assert(enc_char(a, 0) == enc_char(b, 0));
    assert(enc_char(a, 1) == enc_char(b, 1));
    assert(enc_char(a, 2) == enc_char(b, 2));
    assert(enc_char(a, 3) == enc_char(b, 3));
    assert(enc_char(a, 5) == enc_char(b, 5));
    assert(enc_char(a, 6) == enc_char(b, 6));
    assert(enc_char(a, 8) == enc_char(b, 8));
    assert(enc_char(a, 9) == enc_char(b, 9));
    assert(enc_char(a, 11) == enc_char(b, 11));
    assert(enc_char(a, 12) == enc_char(b, 12));
    assert(enc_char(a, 14) == enc_char(b, 14));
    assert(enc_char(a, 15) == enc_char(b, 15));
    assert(enc_char(a, 17) == enc_char(b, 17));
    assert(enc_char(a, 18) == enc_char(b, 18));
    assert(enc_char(a, 20) == enc_char(b, 20));
    assert(enc_char(a, 21) == enc_char(b, 21));
    assert(enc_char(a, 22) == enc_char(b, 22));
    lemma_fields_from_digits(
        a,
        b.year as int,
        b.month as int,
        b.day as int,
        b.hour as int,
        b.minute as int,
        b.second as int,
        b.milli as int,
    );
}

/// Encodes a timestamp as its canonical wire text.
pub fn encode_timestamp(t: &Timestamp) -> (r: String)
    requires
        t.valid(),
    ensures
        r@ == spec_encode(*t),
{
    proof {
        lemma_digits4(t.year as int);
        lemma_digits2(t.month as int);
        lemma_digits2(t.day as int);
        lemma_digits2(t.hour as int);
        lemma_digits2(t.minute as int);
        lemma_digits2(t.second as int);
        lemma_digits3(t.milli as int);
    }
    let mut s = String::new();
    push_digit(&mut s, (t.year / 1000) as u8);
    push_digit(&mut s, ((t.year / 100) % 10) as u8);
    push_digit(&mut s, ((t.year / 10) % 10) as u8);
    push_digit(&mut s, (t.year % 10) as u8);
    push_char(&mut s, '-');
    push_digit(&mut s, t.month / 10);
    push_digit(&mut s, t.month % 10);
    push_char(&mut s, '-');
    push_digit(&mut s, t.day / 10);
    push_digit(&mut s, t.day % 10);
    push_char(&mut s, 'T');
    push_digit(&mut s, t.hour / 10);
    push_digit(&mut s, t.hour % 10);
    push_char(&mut s, ':');
    push_digit(&mut s, t.minute / 10);
    push_digit(&mut s, t.minute % 10);
    push_char(&mut s, ':');
    push_digit(&mut s, t.second / 10);
    push_digit(&mut s, t.second % 10);
    push_char(&mut s, '.');
    push_digit(&mut s, (t.milli / 100) as u8);
    push_digit(&mut s, ((t.milli / 10) % 10) as u8);
    push_digit(&mut s, (t.milli % 10) as u8);
    push_char(&mut s, 'Z');
    proof {
        assert(s@ =~= spec_encode(*t));
    }
    s
}

/// Reads two digit characters at position `i` as one number.
fn read2(s: &str, i: usize) -> (r: Option<u8>)
    requires
        i + 2 <= s@.len(),
        s@.len() <= usize::MAX,
    ensures
        match r {
            Some(v) => {
                &&& v < 100
                &&& s@[i as int] == digit(v as int / 10)
                &&& s@[i as int + 1] == digit(v as int % 10)
            },
            None => (forall|d: int| s@[i as int] != digit(d)) || (forall|d: int|
                s@[i as int + 1] != digit(d)),
        },
{
    let c0 = char_digit(s.get_char(i));
    let c1 = char_digit(s.get_char(i + 1));
    match (c0, c1) {
        (Some(a), Some(b)) => {
            proof {
                lemma_compose2(a as int, b as int);
            }
            Some(a * 10 + b)
        },
        _ => {
            proof {
                lemma_any_digit_is_small(s@[i as int]);
                lemma_any_digit_is_small(s@[i as int + 1]);
            }
            None
        },
    }
}

/// Reads three digit characters at position `i` as one number.
fn read3(s: &str, i: usize) -> (r: Option<u16>)
    requires
        i + 3 <= s@.len(),
        s@.len() <= usize::MAX,
    ensures
        match r {
            Some(v) => {
                &&& v < 1000
                &&& s@[i as int] == digit(v as int / 100)
                &&& s@[i as int + 1] == digit((v as int / 10) % 10)
                &&& s@[i as int + 2] == digit(v as int % 10)
            },
            None => (forall|d: int| s@[i as int] != digit(d)) || (forall|d: int|
                s@[i as int + 1] != digit(d)) || (forall|d: int| s@[i as int + 2] != digit(d)),
        },
{
    let c0 = char_digit(s.get_char(i));
    let c1 = char_digit(s.get_char(i + 1));
    let c2 = char_digit(s.get_char(i + 2));
    match (c0, c1, c2) {
        (Some(a), Some(b), Some(c)) => {
            proof {
                lemma_compose3(a as int, b as int, c as int);
            }
            Some(a as u16 * 100 + b as u16 * 10 + c as u16)
        },
        _ => {
            proof {
                lemma_any_digit_is_small(s@[i as int]);
                lemma_any_digit_is_small(s@[i as int + 1]);
                lemma_any_digit_is_small(s@[i as int + 2]);
            }
            None
        },
    }
}

/// Reads four digit characters at position `i` as one number.
fn read4(s: &str, i: usize) -> (r: Option<u16>)
    requires
        i + 4 <= s@.len(),
        s@.len() <= usize::MAX,
    ensures
        match r {
            Some(v) => {
                &&& v < 10000
                &&& s@[i as int] == digit(v as int / 1000)
                &&& s@[i as int + 1] == digit((v as int / 100) % 10)
                &&& s@[i as int + 2] == digit((v as int / 10) % 10)
                &&& s@[i as int + 3] == digit(v as int % 10)
            },
            None => (forall|d: int| s@[i as int] != digit(d)) || (forall|d: int|
                s@[i as int + 1] != digit(d)) || (forall|d: int| s@[i as int + 2] != digit(d))
                || (forall|d: int| s@[i as int + 3] != digit(d)),
        },
{
    let c0 = char_digit(s.get_char(i));
    let c1 = char_digit(s.get_char(i + 1));
    let c2 = char_digit(s.get_char(i + 2));
    let c3 = char_digit(s.get_char(i + 3));
    match (c0, c1, c2, c3) {
        (Some(a), Some(b), Some(c), Some(d)) => {
            proof {
                lemma_compose4(a as int, b as int, c as int, d as int);
            }
            Some(a as u16 * 1000 + b as u16 * 100 + c as u16 * 10 + d as u16)
        },
        _ => {
            proof {
                lemma_any_digit_is_small(s@[i as int]);
                lemma_any_digit_is_small(s@[i as int + 1]);
                lemma_any_digit_is_small(s@[i as int + 2]);
                lemma_any_digit_is_small(s@[i as int + 3]);
            }
            None
        },
    }
}

/// A character that differs from the ten digit characters differs from
/// `digit(d)` for every integer `d`.
proof fn lemma_any_digit_is_small(c: char)
    ensures
        (forall|d: int| 0 <= d < 10 ==> c != digit(d)) ==> (forall|d: int| c != digit(d)),
{
    if forall|d: int| 0 <= d < 10 ==> c != digit(d) {
        assert forall|d: int| c != digit(d) by {
            if d < 0 || d >= 10 {
                assert(digit(d) == digit(0) || digit(d) == digit(1) || digit(d) == digit(2)
                    || digit(d) == digit(3) || digit(d) == digit(4) || digit(d) == digit(5)
                    || digit(d) == digit(6) || digit(d) == digit(7) || digit(d) == digit(8)
                    || digit(d) == digit(9));
            }
        }
    }
}

/// Parses the canonical wire text, or reports that the text is the
/// encoding of no valid timestamp.
fn parse_timestamp(s: &str) -> (r: Option<Timestamp>)
    ensures
        match r {
            Some(t) => t.valid() && s@ == spec_encode(t),
            None => forall|t: Timestamp| t.valid() ==> s@ != spec_encode(t),
        },
{
    let n = s.unicode_len();
    if n != 24 {
        return None;
    }
    if s.get_char(4) != '-' || s.get_char(7) != '-' || s.get_char(10) != 'T' || s.get_char(13)
        != ':' || s.get_char(16) != ':' || s.get_char(19) != '.' || s.get_char(23) != 'Z' {
        return None;
    }
    let year = read4(s, 0);
    let month = read2(s, 5);
    let day = read2(s, 8);
    let hour = read2(s, 11);
    let minute = read2(s, 14);
    let second = read2(s, 17);
    let milli = read3(s, 20);
    if let (Some(y), Some(mo), Some(d), Some(h), Some(mi), Some(sec), Some(ms)) = (
        year,
        month,
        day,
        hour,
        minute,
        second,
        milli,
    ) {
        match Timestamp::from_parts(
            y as i64,
            mo as i64,
            d as i64,
            h as i64,
            mi as i64,
            sec as i64,
            ms as i64,
        ) {
            Some(t) => {
                proof {
                    assert(s@ =~= spec_encode(t));
                }
                Some(t)
            },
            None => {
                proof {
                    assert forall|t: Timestamp| t.valid() implies s@ != spec_encode(t) by {
                        if s@ == spec_encode(t) {
                            assert(forall|i: int|
                                0 <= i < 24 ==> s@[i] == #[trigger] enc_char(t, i));
                            lemma_fields_from_digits(
                                t,
                                y as int,
                                mo as int,
                                d as int,
                                h as int,
                                mi as int,
                                sec as int,
                                ms as int,
                            );
                        }
                    }
                }
                None
            },
        }
    } else {
        proof {
            assert forall|t: Timestamp| t.valid() implies s@ != spec_encode(t) by {
                if s@ == spec_encode(t) {
                    assert(forall|i: int| 0 <= i < 24 ==> s@[i] == #[trigger] enc_char(t, i));
                }
            }
        }
        None
    }
}

/// Builds the decode error for field `field` and raw text `s`.
fn mk_err(field: &str, s: &str) -> (r: TaskError)
    ensures
        (r matches TaskError::MalformedTimestamp { field: f, value: v } && f@ == field@ && v@
            == s@),
{
    TaskError::MalformedTimestamp { field: field.to_owned(), value: s.to_owned() }
}

/// Decodes the canonical wire text back into a timestamp.  Exactly the
/// texts produced by [`encode_timestamp`] are accepted; any other text
/// yields a [`TaskError::MalformedTimestamp`] naming the offending
/// field and carrying the raw text.
pub fn decode_timestamp(field: &str, s: &str) -> (r: Result<Timestamp, TaskError>)
    ensures
        match r {
            Ok(t) => t.valid() && s@ == spec_encode(t),
            Err(e) => {
                &&& forall|t: Timestamp| t.valid() ==> s@ != spec_encode(t)
                &&& (e matches TaskError::MalformedTimestamp { field: f, value: v } && f@
                    == field@ && v@ == s@)
            },
        },
{
    match parse_timestamp(s) {
        Some(t) => Ok(t),
        None => Err(mk_err(field, s)),
    }
}

} // verus!
