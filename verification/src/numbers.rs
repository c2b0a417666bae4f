//! Whole numbers typed into settings fields.

use crate::quicklinks::decimal;
use crate::text::{chars_of, lemma_trim_unpadded, string_of, trim, trimmed};
use vstd::prelude::*;

verus! {

pub open spec fn is_digit(c: char) -> bool {
    '0' <= c <= '9'
}

pub open spec fn all_digits(d: Seq<char>) -> bool {
    forall|i: int| 0 <= i < d.len() ==> is_digit(#[trigger] d[i])
}

/// The value of a sequence of decimal digits.
pub open spec fn digits_value(d: Seq<char>) -> int
    decreases d.len(),
{
    if d.len() == 0 {
        0
    } else {
        digits_value(d.drop_last()) * 10 + (d.last() as int - 48)
    }
}

/// `str::parse` for integers: an optional `+` (or, for signed types, `-`)
/// followed by at least one decimal digit and nothing else.
pub open spec fn parse_integer(s: Seq<char>, signed: bool) -> Option<int> {
    let (negative, digits) = if s.len() > 0 && s[0] == '+' {
        (false, s.drop_first())
    } else if signed && s.len() > 0 && s[0] == '-' {
        (true, s.drop_first())
    } else {
        (false, s)
    };
    if digits.len() > 0 && all_digits(digits) {
        Some(
            if negative {
                -digits_value(digits)
            } else {
                digits_value(digits)
            },
        )
    } else {
        None
    }
}

proof fn lemma_digits_value_nonneg(d: Seq<char>)
    requires
        all_digits(d),
    ensures
        digits_value(d) >= 0,
    decreases d.len(),
{
    if d.len() > 0 {
        lemma_digits_value_nonneg(d.drop_last());
        assert(is_digit(d[d.len() - 1]));
    }
}

/// Reads an integer as `str::parse` does, returning its value when it lies
/// in `min..=max`.
fn parse_in_range(s: &[char], signed: bool, min: i64, max: i64) -> (r: Option<i64>)
    requires
        -0x1_0000_0000 <= min <= max <= 0x1_0000_0000,
    ensures
        match parse_integer(s@, signed) {
            Some(v) => if min <= v <= max {
                r == Some(v as i64)
            } else {
                r is None
            },
            None => r is None,
        },
{
    let mut start: usize = 0;
    let mut negative = false;
    if s.len() > 0 && s[0] == '+' {
        start = 1;
    } else if signed && s.len() > 0 && s[0] == '-' {
        start = 1;
        negative = true;
    }
    let ghost digits = s@.skip(start as int);
    assert(parse_integer(s@, signed) == if digits.len() > 0 && all_digits(digits) {
        Some(
            if negative {
                -digits_value(digits)
            } else {
                digits_value(digits)
            },
        )
    } else {
        None::<int>
    }) by {
        if start == 1 {
            assert(s@.drop_first() == digits);
        } else {
            assert(s@ == digits);
        }
    }
    if start == s.len() {
        assert(digits.len() == 0);
        return None;
    }
    let mut value: i64 = 0;
    let mut big = false;
    let mut i = start;
    while i < s.len()
        invariant
            start <= i <= s@.len(),
            digits == s@.skip(start as int),
            parse_integer(s@, signed) == if digits.len() > 0 && all_digits(digits) {
                Some(
                    if negative {
                        -digits_value(digits)
                    } else {
                        digits_value(digits)
                    },
                )
            } else {
                None::<int>
            },
            -0x1_0000_0000 <= min <= max <= 0x1_0000_0000,
            all_digits(digits.take(i - start)),
            !big ==> value == digits_value(digits.take(i - start)),
            big ==> digits_value(digits.take(i - start)) > 0x1_0000_0000,
            0 <= value <= 0x1_0000_0000,
        decreases s.len() - i,
    {
        let c = s[i];
        if !('0' <= c && c <= '9') {
            assert(digits[i - start] == c);
            return None;
        }
        assert(digits.take(i + 1 - start).drop_last() == digits.take(i - start));
        assert(digits.take(i + 1 - start).last() == c);
        let d = (c as u32 - 48) as i64;
        proof {
            lemma_digits_value_nonneg(digits.take(i - start));
        }
        if !big {
            let next = value * 10 + d;
            if next > 0x1_0000_0000 {
                big = true;
            } else {
                value = next;
            }
        }
        i += 1;
    }
    assert(digits.take(i - start) == digits);
    if big {
        return None;
    }
    let v = if negative {
        -value
    } else {
        value
    };
    if min <= v && v <= max {
        Some(v)
    } else {
        None
    }
}

pub const INVALID_OPACITY: &'static str = "Enter a whole-number percentage from 0 to 100.";

/// The background opacity typed as a whole-number percentage.
pub fn read_opacity(text: &str) -> (r: Result<u8, String>)
    ensures
        match parse_integer(trim(text@), false) {
            Some(v) => if v <= 100 {
                r matches Ok(p) && p == v
            } else {
                r matches Err(e) && e@ == INVALID_OPACITY@
            },
            None => r matches Err(e) && e@ == INVALID_OPACITY@,
        },
{
    let t = trimmed(&chars_of(text));
    proof {
        let ts = trim(text@);
        if ts.len() > 0 && ts[0] == '+' {
            if all_digits(ts.drop_first()) {
                lemma_digits_value_nonneg(ts.drop_first());
            }
        } else if all_digits(ts) {
            lemma_digits_value_nonneg(ts);
        }
    }
    match parse_in_range(&t, false, 0, 100) {
        Some(v) => Ok(v as u8),
        None => Err(INVALID_OPACITY.to_owned()),
    }
}

/// The text the opacity field shows for a percentage.
pub fn opacity_text(value: u8) -> (text: String)
    ensures
        text@ == decimal(value as nat),
{
    let mut digits: Vec<char> = Vec::new();
    crate::quicklinks::push_decimal(&mut digits, value as u64);
    assert(digits@ == decimal(value as nat));
    string_of(&digits)
}

/// The decimal form of a signed integer, with `-` for negative values.
pub open spec fn signed_decimal(v: int) -> Seq<char> {
    if v < 0 {
        seq!['-'] + decimal((-v) as nat)
    } else {
        decimal(v as nat)
    }
}

fn push_signed(out: &mut Vec<char>, v: i32)
    ensures
        final(out)@ == old(out)@ + signed_decimal(v as int),
{
    if v < 0 {
        out.push('-');
        crate::quicklinks::push_decimal(out, (-(v as i64)) as u64);
    } else {
        crate::quicklinks::push_decimal(out, v as u64);
    }
}

/// The message for a number field: its label and the allowed range.
pub open spec fn number_message(label: Seq<char>, min: int, max: int) -> Seq<char> {
    label + ": enter a whole number from "@ + signed_decimal(min) + " to "@ + signed_decimal(max)
        + "."@
}

/// A whole number typed into a settings field, within `min..=max`.
pub fn read_number(text: &str, label: &str, min: i32, max: i32) -> (r: Result<i32, String>)
    ensures
        match parse_integer(trim(text@), true) {
            Some(v) => if min <= v <= max {
                r matches Ok(n) && n == v
            } else {
                r matches Err(e) && e@ == number_message(label@, min as int, max as int)
            },
            None => r matches Err(e) && e@ == number_message(label@, min as int, max as int),
        },
{
    let t = trimmed(&chars_of(text));
    if min <= max {
        if let Some(v) = parse_in_range(&t, true, min as i64, max as i64) {
            return Ok(v as i32);
        }
    }
    let mut message = chars_of(label);
    let ghost m0 = message@;
    let part1 = chars_of(": enter a whole number from ");
    crate::quicklinks::push_all(&mut message, &part1);
    push_signed(&mut message, min);
    crate::quicklinks::push_all(&mut message, &chars_of(" to "));
    push_signed(&mut message, max);
    crate::quicklinks::push_all(&mut message, &chars_of("."));
    assert(message@ == number_message(label@, min as int, max as int));
    Err(string_of(&message))
}

proof fn lemma_decimal_digits(n: nat)
    ensures
        decimal(n).len() > 0,
        all_digits(decimal(n)),
        digits_value(decimal(n)) == n,
    decreases n,
{
    if n < 10 {
        let c = ((48 + n) as u8) as char;
        assert(c as int == 48 + n);
        assert(decimal(n).drop_last() == Seq::<char>::empty());
        assert(decimal(n).last() == c);
        assert(digits_value(decimal(n)) == digits_value(Seq::<char>::empty()) * 10 + (c as int - 48));
    } else {
        lemma_decimal_digits(n / 10);
        let d = decimal(n);
        assert(d.drop_last() == decimal(n / 10));
        let c = ((48 + n % 10) as u8) as char;
        assert(c as int == 48 + n % 10);
        assert(d.last() == c);
        assert forall|i: int| 0 <= i < d.len() implies is_digit(#[trigger] d[i]) by {
            if i < d.len() - 1 {
                assert(d[i] == decimal(n / 10)[i]);
            }
        }
        assert((n / 10) * 10 + n % 10 == n);
        assert(digits_value(d) == digits_value(decimal(n / 10)) * 10 + (c as int - 48));
    }
}

/// An opacity shown in its field reads back as itself when it is at most
/// 100, and is refused otherwise.
pub proof fn lemma_opacity_reads_back(value: u8)
    ensures
        parse_integer(trim(decimal(value as nat)), false) == Some(value as int),
{
    let s = decimal(value as nat);
    lemma_decimal_digits(value as nat);
    assert(is_digit(s[0]));
    assert(is_digit(s[s.len() - 1]));
    lemma_trim_unpadded(s);
}

/// A number written out as a settings field shows it reads back as the
/// same number.
pub proof fn lemma_written_number_reads_back(v: int)
    ensures
        parse_integer(trim(signed_decimal(v)), true) == Some(v),
{
    let s = signed_decimal(v);
    if v < 0 {
        lemma_decimal_digits((-v) as nat);
        let d = decimal((-v) as nat);
        assert(s.drop_first() == d);
        assert(s.last() == d.last());
        assert(is_digit(d[d.len() - 1]));
    } else {
        lemma_decimal_digits(v as nat);
        assert(is_digit(s[0]));
        assert(is_digit(s[s.len() - 1]));
    }
    lemma_trim_unpadded(s);
}

} // verus!
