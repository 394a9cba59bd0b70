//! Unsigned decimal numerals: reading them from text, and writing them.
//!
//! A numeral is an optional `+` followed by one or more of the digits
//! `0` to `9`. Nothing else is accepted: no minus sign, no blanks, no
//! underscores, no digits outside ASCII.

use vstd::prelude::*;
use vstd::string::*;

verus! {

pub open spec fn is_digit(c: char) -> bool {
    '0' <= c && c <= '9'
}

/// The number a digit stands for.
pub open spec fn digit_value(c: char) -> nat
    recommends
        is_digit(c),
{
    (c as u32 - '0' as u32) as nat
}

pub open spec fn all_digits(s: Seq<char>) -> bool {
    forall|i: int| 0 <= i < s.len() ==> is_digit(#[trigger] s[i])
}

/// The number written by a string of digits, most significant digit first.
/// The empty string stands for zero.
pub open spec fn digits_value(s: Seq<char>) -> nat
    decreases s.len(),
{
    if s.len() == 0 {
        0
    } else {
        10 * digits_value(s.drop_last()) + digit_value(s.last())
    }
}

/// The digits of a numeral: the text without its leading `+`, if it has one.
pub open spec fn numeral_digits(s: Seq<char>) -> Seq<char> {
    if s.len() > 0 && s[0] == '+' {
        s.subrange(1, s.len() as int)
    } else {
        s
    }
}

pub open spec fn is_numeral(s: Seq<char>) -> bool {
    numeral_digits(s).len() > 0 && all_digits(numeral_digits(s))
}

/// What a text denotes as an unsigned number no larger than `max`: the
/// value of the numeral, or `None` if the text is no numeral or its value
/// exceeds `max`.
pub open spec fn parse_unsigned(s: Seq<char>, max: nat) -> Option<nat> {
    if is_numeral(s) && digits_value(numeral_digits(s)) <= max {
        Some(digits_value(numeral_digits(s)))
    } else {
        None
    }
}

/// A numeral is made of ASCII characters only.
pub proof fn lemma_numeral_is_ascii(s: Seq<char>)
    requires
        is_numeral(s),
    ensures
        vstd::utf8::is_ascii_chars(s),
{
    let d = numeral_digits(s);
    assert forall|i: int| 0 <= i < s.len() implies '\0' <= #[trigger] s[i] <= '\u{7f}' by {
        if s[0] == '+' {
            if i > 0 {
                assert(is_digit(d[i - 1]));
            }
        } else {
            assert(is_digit(d[i]));
        }
    }
}

/// A text is no numeral, and so is read as no number, where it is
/// empty, where it is a lone `+`, or where it holds a character that is
/// neither a digit nor a `+` in front: a minus sign, a blank, a letter.
pub proof fn lemma_not_a_numeral(s: Seq<char>, at: int)
    requires
        s.len() == 0 || s == seq!['+'] || (0 <= at < s.len() && !is_digit(s[at]) && (at > 0 || s[0]
            != '+')),
    ensures
        !is_numeral(s),
        forall|max: nat| parse_unsigned(s, max) is None,
{
    let d = numeral_digits(s);
    if s.len() > 0 && s != seq!['+'] {
        if s[0] == '+' {
            assert(d[at - 1] == s[at]);
        } else {
            assert(d[at] == s[at]);
        }
    } else if s.len() > 0 {
        assert(d.len() == 0);
    }
}

/// Reading more digits never makes the number smaller.
pub proof fn lemma_digits_value_grows(s: Seq<char>, from: int, mid: int, to: int)
    requires
        0 <= from <= mid <= to <= s.len(),
    ensures
        digits_value(s.subrange(from, mid)) <= digits_value(s.subrange(from, to)),
    decreases to - mid,
{
    if mid < to {
        lemma_digits_value_grows(s, from, mid, to - 1);
        assert(s.subrange(from, to).drop_last() =~= s.subrange(from, to - 1));
    }
}

/// Reading one more digit multiplies the number by ten and adds the digit.
pub proof fn lemma_digits_value_step(s: Seq<char>, from: int, to: int)
    requires
        0 <= from <= to < s.len(),
    ensures
        digits_value(s.subrange(from, to + 1)) == 10 * digits_value(s.subrange(from, to))
            + digit_value(s[to]),
{
    assert(s.subrange(from, to + 1).drop_last() =~= s.subrange(from, to));
}

/// An ASCII character and its byte are the same number.
proof fn lemma_ascii_byte(c: char, b: u8)
    requires
        c <= '\u{7f}',
        b == c as u8,
    ensures
        c as u32 == b as u32,
        is_digit(c) <==> 48 <= b <= 57,
        c == '+' <==> b == 43,
{
}

/// Reads an unsigned decimal numeral that fits in 64 bits.
pub fn parse_u64(text: &str) -> (r: Option<u64>)
    ensures
        r == match parse_unsigned(text@, u64::MAX as nat) {
            Some(v) => Some(v as u64),
            None => None,
        },
{
    if !text.is_ascii() {
        proof {
            if is_numeral(text@) {
                lemma_numeral_is_ascii(text@);
            }
        }
        return None;
    }
    proof {
        is_ascii_spec_bytes(text);
    }
    let bytes = text.as_bytes();
    let n: usize = bytes.len();
    if n == 0 {
        return None;
    }
    proof {
        lemma_ascii_byte(text@[0], bytes@[0]);
    }
    let start: usize = if bytes[0] == 43u8 {
        1
    } else {
        0
    };
    let ghost digits = text@.subrange(start as int, n as int);
    assert(numeral_digits(text@) =~= digits);
    if start == n {
        return None;
    }
    let mut i: usize = start;
    let mut acc: u64 = 0;
    while i < n
        invariant
            n == text@.len(),
            bytes@.len() == n,
            start <= i <= n,
            digits == text@.subrange(start as int, n as int),
            digits == numeral_digits(text@),
            forall|k: int| 0 <= k < n ==> #[trigger] bytes@[k] == text@[k] as u8,
            forall|k: int| 0 <= k < n ==> #[trigger] text@[k] <= '\u{7f}',
            forall|k: int| start <= k < i ==> is_digit(#[trigger] text@[k]),
            acc == digits_value(text@.subrange(start as int, i as int)),
        decreases n - i,
    {
        let b: u8 = bytes[i];
        proof {
            lemma_ascii_byte(text@[i as int], b);
            lemma_digits_value_step(text@, start as int, i as int);
        }
        if b < 48u8 || b > 57u8 {
            assert(!is_digit(digits[i - start]));
            return None;
        }
        let d: u64 = (b - 48u8) as u64;
        if acc > (u64::MAX - d) / 10 {
            proof {
                lemma_digits_value_grows(text@, start as int, i as int + 1, n as int);
            }
            return None;
        }
        acc = acc * 10 + d;
        i = i + 1;
    }
    assert(all_digits(digits)) by {
        assert forall|k: int| 0 <= k < digits.len() implies is_digit(#[trigger] digits[k]) by {
            assert(digits[k] == text@[start + k]);
        }
    }
    Some(acc)
}

/// Reads an unsigned decimal numeral that fits in 32 bits.
pub fn parse_u32(text: &str) -> (r: Option<u32>)
    ensures
        r == match parse_unsigned(text@, u32::MAX as nat) {
            Some(v) => Some(v as u32),
            None => None,
        },
{
    match parse_u64(text) {
        Some(v) => if v <= 0xffff_ffffu64 {
            Some(v as u32)
        } else {
            None
        },
        None => None,
    }
}

/// The digit that stands for a number below ten.
pub open spec fn digit_char(d: nat) -> char
    recommends
        d < 10,
{
    if d == 0 {
        '0'
    } else if d == 1 {
        '1'
    } else if d == 2 {
        '2'
    } else if d == 3 {
        '3'
    } else if d == 4 {
        '4'
    } else if d == 5 {
        '5'
    } else if d == 6 {
        '6'
    } else if d == 7 {
        '7'
    } else if d == 8 {
        '8'
    } else {
        '9'
    }
}

/// A number in decimal digits, without leading zeros; zero is `0`.
pub open spec fn decimal(n: nat) -> Seq<char>
    decreases n,
{
    if n < 10 {
        seq![digit_char(n)]
    } else {
        decimal(n / 10).push(digit_char(n % 10))
    }
}

/// What is written for a number is a numeral, and reads back as that
/// number.
pub proof fn lemma_decimal_reads_back(n: nat)
    ensures
        decimal(n).len() > 0,
        all_digits(decimal(n)),
        digits_value(decimal(n)) == n,
        forall|max: nat| n <= max ==> parse_unsigned(decimal(n), max) == Some(n),
    decreases n,
{
    let text = decimal(n);
    if n < 10 {
        assert(text.drop_last() =~= Seq::<char>::empty());
        assert(digits_value(text.drop_last()) == 0);
        assert(text.last() == digit_char(n));
    } else {
        lemma_decimal_reads_back(n / 10);
        assert(text.drop_last() =~= decimal(n / 10));
        assert(text.last() == digit_char(n % 10));
        assert forall|i: int| 0 <= i < text.len() implies is_digit(#[trigger] text[i]) by {
            if i < text.len() - 1 {
                assert(text[i] == decimal(n / 10)[i]);
            }
        }
    }
    assert(text[0] != '+');
    assert(numeral_digits(text) == text);
}

/// The digit for a number below ten, as text.
fn digit_str(d: u64) -> (s: &'static str)
    requires
        d < 10,
    ensures
        s@ == seq![digit_char(d as nat)],
{
    proof {
        reveal_strlit("0");
        reveal_strlit("1");
        reveal_strlit("2");
        reveal_strlit("3");
        reveal_strlit("4");
        reveal_strlit("5");
        reveal_strlit("6");
        reveal_strlit("7");
        reveal_strlit("8");
        reveal_strlit("9");
    }
    let s = if d == 0 {
        "0"
    } else if d == 1 {
        "1"
    } else if d == 2 {
        "2"
    } else if d == 3 {
        "3"
    } else if d == 4 {
        "4"
    } else if d == 5 {
        "5"
    } else if d == 6 {
        "6"
    } else if d == 7 {
        "7"
    } else if d == 8 {
        "8"
    } else {
        "9"
    };
    assert(s@ =~= seq![digit_char(d as nat)]);
    s
}

/// Writes a number in decimal digits at the end of `out`.
pub fn append_decimal(out: &mut String, n: u64)
    ensures
        final(out)@ == old(out)@ + decimal(n as nat),
    decreases n,
{
    if n >= 10 {
        append_decimal(out, n / 10);
    }
    out.append(digit_str(n % 10));
    proof {
        if n >= 10 {
            assert(final(out)@ =~= old(out)@ + decimal(n as nat));
        }
    }
}

/// A time of whole microseconds, written in milliseconds with three
/// decimals: the milliseconds, a point, and the microseconds left over
/// in three digits.
pub open spec fn millis_text(micros: nat) -> Seq<char> {
    decimal(micros / 1000) + seq![
        '.',
        digit_char(micros % 1000 / 100),
        digit_char(micros % 100 / 10),
        digit_char(micros % 10),
    ]
}

/// Writes a time of whole microseconds at the end of `out`, in
/// milliseconds with three decimals.
pub fn append_millis(out: &mut String, micros: u64)
    ensures
        final(out)@ == old(out)@ + millis_text(micros as nat),
{
    proof {
        reveal_strlit(".");
    }
    append_decimal(out, micros / 1000);
    out.append(".");
    out.append(digit_str(micros % 1000 / 100));
    out.append(digit_str(micros % 100 / 10));
    out.append(digit_str(micros % 10));
    assert(final(out)@ =~= old(out)@ + millis_text(micros as nat));
}

} // verus!
