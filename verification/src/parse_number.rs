//! Parsing of plain unsigned numbers from the command line.
//!
//! A number is decimal, or carries a `0b`/`0o`/`0x` radix declaration
//! (case-insensitive); the whole text after the declaration must be
//! digits, with an optional leading `+`; the empty body counts as zero.

use vstd::prelude::*;
use crate::parse_file_size::digit_value_spec;
use crate::parse_file_size::supported_radix;

verus! {

/// Why a plain number literal was rejected.
#[derive(Debug, Copy, Clone, Eq, PartialEq, Hash)]
pub enum NumberParseError {
    InvalidDigit,
    Overflow,
}

/// What reading `s` as digits under `radix` with accumulator `acc`
/// yields: every character must be a digit.
pub open spec fn parse_all_spec(s: Seq<char>, radix: u64, acc: u64) -> Result<
    u64,
    NumberParseError,
>
    decreases s.len(),
{
    if s.len() == 0 {
        Ok(acc)
    } else {
        match digit_value_spec(s[0], radix) {
            None => Err(NumberParseError::InvalidDigit),
            Some(d) => {
                if acc * radix + d <= u64::MAX {
                    parse_all_spec(s.skip(1), radix, (acc * radix + d) as u64)
                } else {
                    Err(NumberParseError::Overflow)
                }
            },
        }
    }
}

/// What reading a whole number body yields: an empty body is zero, an
/// optional leading `+` is allowed before at least one digit.
pub open spec fn parse_body_spec(s: Seq<char>, radix: u64) -> Result<u64, NumberParseError> {
    if s.len() == 0 {
        Ok(0u64)
    } else if s[0] == '+' {
        if s.len() == 1 {
            Err(NumberParseError::InvalidDigit)
        } else {
            parse_all_spec(s.skip(1), radix, 0)
        }
    } else {
        parse_all_spec(s, radix, 0)
    }
}

/// What reading a whole number literal yields: a text of two or more
/// characters starting with `0` must declare its radix; anything else is
/// read as decimal.
pub open spec fn parse_number_spec(s: Seq<char>) -> Result<u64, NumberParseError> {
    if s.len() >= 2 && s[0] == '0' {
        let c = s[1];
        if c == 'b' || c == 'B' {
            parse_body_spec(s.skip(2), 2)
        } else if c == 'o' || c == 'O' {
            parse_body_spec(s.skip(2), 8)
        } else if c == 'x' || c == 'X' {
            parse_body_spec(s.skip(2), 16)
        } else {
            Err(NumberParseError::InvalidDigit)
        }
    } else {
        parse_body_spec(s, 10)
    }
}

fn parse_all_digits(text: &str, start: usize, radix: u64) -> (r: Result<u64, NumberParseError>)
    requires
        supported_radix(radix),
        start <= text@.len(),
    ensures
        r == parse_all_spec(text@.skip(start as int), radix, 0),
{
    let n: usize = text.unicode_len();
    let mut i: usize = start;
    let mut acc: u64 = 0;
    proof {
        assert(text@.skip(start as int).skip(0) =~= text@.skip(start as int));
    }
    while i < n
        invariant
            supported_radix(radix),
            start <= i <= n,
            n == text@.len(),
            parse_all_spec(text@.skip(start as int), radix, 0) == parse_all_spec(
                text@.skip(i as int),
                radix,
                acc,
            ),
        decreases n - i,
    {
        let c = text.get_char(i);
        proof {
            assert(text@.skip(i as int)[0] == c);
            assert(text@.skip(i as int).skip(1) =~= text@.skip(i as int + 1));
        }
        match crate::parse_file_size::parse_digit(c, radix) {
            Some(d) => {
                let scaled = acc.checked_mul(radix);
                match scaled {
                    Some(sv) => {
                        let bumped = sv.checked_add(d);
                        match bumped {
                            Some(b) => {
                                acc = b;
                                i = i + 1;
                            },
                            None => {
                                return Err(NumberParseError::Overflow);
                            },
                        }
                    },
                    None => {
                        proof {
                            assert(acc * radix + d > u64::MAX) by (nonlinear_arith)
                                requires
                                    acc * radix > u64::MAX,
                                    d >= 0,
                            ;
                        }
                        return Err(NumberParseError::Overflow);
                    },
                }
            },
            None => {
                return Err(NumberParseError::InvalidDigit);
            },
        }
    }
    proof {
        assert(text@.skip(n as int) =~= Seq::<char>::empty());
    }
    Ok(acc)
}

fn parse_body(text: &str, start: usize, radix: u64) -> (r: Result<u64, NumberParseError>)
    requires
        supported_radix(radix),
        start <= text@.len(),
    ensures
        r == parse_body_spec(text@.skip(start as int), radix),
{
    let n: usize = text.unicode_len();
    if start == n {
        return Ok(0);
    }
    if text.get_char(start) == '+' {
        proof {
            assert(text@.skip(start as int)[0] == text@[start as int]);
            assert(text@.skip(start as int).skip(1) =~= text@.skip(start as int + 1));
        }
        if start + 1 == n {
            return Err(NumberParseError::InvalidDigit);
        }
        parse_all_digits(text, start + 1, radix)
    } else {
        proof {
            assert(text@.skip(start as int)[0] == text@[start as int]);
        }
        parse_all_digits(text, start, radix)
    }
}

/// Reads a whole text as an unsigned number with an optional radix
/// declaration.
pub fn parse_number(text: &str) -> (r: Result<u64, NumberParseError>)
    ensures
        r == parse_number_spec(text@),
{
    let n: usize = text.unicode_len();
    if n >= 2 && text.get_char(0) == '0' {
        let c = text.get_char(1);
        if c == 'b' || c == 'B' {
            parse_body(text, 2, 2)
        } else if c == 'o' || c == 'O' {
            parse_body(text, 2, 8)
        } else if c == 'x' || c == 'X' {
            parse_body(text, 2, 16)
        } else {
            Err(NumberParseError::InvalidDigit)
        }
    } else {
        proof {
            assert(text@.skip(0) =~= text@);
        }
        parse_body(text, 0, 10)
    }
}

/// Reads numbers from the command line into a chosen unsigned width.
pub struct UNumberParser<T> {
    marker: core::marker::PhantomData<T>,
}

impl UNumberParser<u64> {
    /// A parser that yields `u64` values.
    pub fn u64() -> (r: Self) {
        UNumberParser { marker: core::marker::PhantomData }
    }

    /// Reads `text` as a number.
    pub fn parse_value(&self, text: &str) -> (r: Result<u64, NumberParseError>)
        ensures
            r == parse_number_spec(text@),
    {
        parse_number(text)
    }
}

impl UNumberParser<u32> {
    /// A parser that yields `u32` values, rejecting larger numbers.
    pub fn u32() -> (r: Self) {
        UNumberParser { marker: core::marker::PhantomData }
    }

    /// Reads `text` as a number that must fit in 32 bits.
    pub fn parse_value(&self, text: &str) -> (r: Result<u32, NumberParseError>)
        ensures
            match parse_number_spec(text@) {
                Ok(v) => if v <= u32::MAX {
                    r == Ok::<u32, NumberParseError>(v as u32)
                } else {
                    r == Err::<u32, NumberParseError>(NumberParseError::Overflow)
                },
                Err(e) => r == Err::<u32, NumberParseError>(e),
            },
    {
        match parse_number(text) {
            Ok(v) => {
                if v <= 0xffff_ffff {
                    Ok(v as u32)
                } else {
                    Err(NumberParseError::Overflow)
                }
            },
            Err(e) => Err(e),
        }
    }
}

} // verus!
