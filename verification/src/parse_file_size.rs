//! Parsing and formatting of file sizes and plain unsigned numbers.
//!
//! A size literal is a number in binary, octal, decimal or hexadecimal
//! (prefixes `0b`, `0o`, `0x`, case-insensitive), with `_` separators,
//! followed by an optional scale suffix (`kb`, `kib`, ... `pib`,
//! case-insensitive).

use vstd::prelude::*;

verus! {

/// Why a number literal was rejected.
#[derive(Debug, Copy, Clone, Eq, PartialEq, Hash)]
pub enum ParseIntError {
    Overflow,
}

/// Why a size literal was rejected.
#[derive(Debug, Copy, Clone, Eq, PartialEq, Hash)]
pub enum FileSizeError {
    /// The number, or the number scaled by its suffix, exceeds `u64`.
    Overflow,
    /// The text after the number is not a known scale suffix.
    InvalidSuffix,
}

/// The character with the case bit folded in, as a code point:
/// ASCII upper-case letters map to their lower-case forms.
pub open spec fn lower_code(c: char) -> u32 {
    if 65 <= c as u32 && c as u32 <= 90 {
        (c as u32 + 32) as u32
    } else {
        c as u32
    }
}

/// The value of `c` as a digit under `radix`, if it is one
/// (case-insensitive for the hexadecimal letters).
pub open spec fn digit_value_spec(c: char, radix: u64) -> Option<u64> {
    let u = lower_code(c);
    if 48 <= u && u <= 57 && u - 48 < (if radix < 10 { radix as int } else { 10 }) {
        Some((u - 48) as u64)
    } else if radix == 16 && 97 <= u && u <= 102 {
        Some((u - 97 + 10) as u64)
    } else {
        None
    }
}

/// What reading a number prefix from `s` under `radix` yields, having
/// already accumulated `acc`: digits extend the accumulator, `_` is
/// skipped, the first other character ends the number and starts the
/// remaining text.
pub open spec fn parse_prefix_spec(s: Seq<char>, radix: u64, acc: u64) -> Result<
    (u64, Seq<char>),
    ParseIntError,
>
    decreases s.len(),
{
    if s.len() == 0 {
        Ok((acc, s))
    } else if s[0] == '_' {
        parse_prefix_spec(s.skip(1), radix, acc)
    } else {
        match digit_value_spec(s[0], radix) {
            Some(d) => {
                if acc * radix + d <= u64::MAX {
                    parse_prefix_spec(s.skip(1), radix, (acc * radix + d) as u64)
                } else {
                    Err(ParseIntError::Overflow)
                }
            },
            None => Ok((acc, s)),
        }
    }
}

/// Whether `radix` is one the number grammar knows.
pub open spec fn supported_radix(radix: u64) -> bool {
    radix == 2 || radix == 8 || radix == 10 || radix == 16
}

pub(crate) fn parse_digit(c: char, radix: u64) -> (r: Option<u64>)
    requires
        supported_radix(radix),
    ensures
        r == digit_value_spec(c, radix),
{
    let u: u32 = c as u32;
    let low: u32 = if 65 <= u && u <= 90 {
        u + 32
    } else {
        u
    };
    let cap: u64 = if radix < 10 {
        radix
    } else {
        10
    };
    if 48 <= low && low <= 57 && ((low - 48) as u64) < cap {
        Some((low - 48) as u64)
    } else if radix == 16 && 97 <= low && low <= 102 {
        Some((low - 97 + 10) as u64)
    } else {
        None
    }
}

/// Reads a number prefix from `text` under `radix` and returns its value
/// together with the remaining text.
pub fn parse_number_prefix<'t>(text: &'t str, radix: u64) -> (r: Result<
    (u64, &'t str),
    ParseIntError,
>)
    requires
        supported_radix(radix),
    ensures
        match r {
            Ok((v, rem)) => parse_prefix_spec(text@, radix, 0) == Ok::<_, ParseIntError>(
                (v, rem@),
            ),
            Err(e) => parse_prefix_spec(text@, radix, 0) == Err::<(u64, Seq<char>), _>(e),
        },
{
    let n: usize = text.unicode_len();
    let mut i: usize = 0;
    let mut acc: u64 = 0;
    proof {
        assert(text@.skip(0) =~= text@);
    }
    while i < n
        invariant
            supported_radix(radix),
            i <= n,
            n == text@.len(),
            parse_prefix_spec(text@, radix, 0) == parse_prefix_spec(text@.skip(i as int), radix, acc),
        decreases n - i,
    {
        let c = text.get_char(i);
        proof {
            assert(text@.skip(i as int)[0] == c);
            assert(text@.skip(i as int).skip(1) =~= text@.skip(i as int + 1));
        }
        if c == '_' {
            i = i + 1;
            continue ;
        }
        match parse_digit(c, radix) {
            Some(d) => {
                let scaled = acc.checked_mul(radix);
                match scaled {
                    Some(s) => {
                        let bumped = s.checked_add(d);
                        match bumped {
                            Some(b) => {
                                acc = b;
                                i = i + 1;
                            },
                            None => {
                                return Err(ParseIntError::Overflow);
                            },
                        }
                    },
                    None => {
                        proof {
                            assert(acc * radix + d > u64::MAX) by (nonlinear_arith)
                                requires
                                    acc * radix > u64::MAX,
                                    d >= 0,
                            ;
                        }
                        return Err(ParseIntError::Overflow);
                    },
                }
            },
            None => {
                let rem = text.substring_char(i, n);
                return Ok((acc, rem));
            },
        }
    }
    proof {
        assert(text@.skip(n as int) =~= Seq::<char>::empty());
        reveal_strlit("");
        assert(""@ =~= Seq::<char>::empty());
    }
    Ok((acc, ""))
}

/// Case-insensitive equality of two character sequences.
pub open spec fn eq_ci(a: Seq<char>, b: Seq<char>) -> bool {
    a.len() == b.len() && forall|i: int|
        0 <= i < a.len() ==> #[trigger] lower_code(a[i]) == lower_code(b[i])
}

/// Whether the text of `s` from position `start` on equals `pat`,
/// ignoring ASCII case.
pub fn match_ci(s: &str, start: usize, pat: &str) -> (r: bool)
    requires
        start <= s@.len(),
    ensures
        r == eq_ci(s@.skip(start as int), pat@),
{
    let n: usize = s.unicode_len();
    let m: usize = pat.unicode_len();
    if n - start != m {
        return false;
    }
    let mut j: usize = 0;
    while j < m
        invariant
            start <= n,
            n == s@.len(),
            m == pat@.len(),
            n - start == m,
            j <= m,
            forall|i: int|
                0 <= i < j ==> #[trigger] lower_code(s@.skip(start as int)[i]) == lower_code(
                    pat@[i],
                ),
        decreases m - j,
    {
        let a = s.get_char(start + j);
        let b = pat.get_char(j);
        let la: u32 = if 65 <= a as u32 && a as u32 <= 90 {
            a as u32 + 32
        } else {
            a as u32
        };
        let lb: u32 = if 65 <= b as u32 && b as u32 <= 90 {
            b as u32 + 32
        } else {
            b as u32
        };
        if la != lb {
            proof {
                assert(s@.skip(start as int)[j as int] == s@[start + j]);
                assert(la == lower_code(s@.skip(start as int)[j as int]));
                assert(lb == lower_code(pat@[j as int]));
            }
            return false;
        }
        proof {
            assert(s@.skip(start as int)[j as int] == s@[start + j]);
        }
        j = j + 1;
    }
    true
}

/// The scale that a suffix stands for: decimal (`kb` ... `pb`) or binary
/// (`kib` ... `pib`) multipliers, case-insensitive; the empty suffix
/// scales by one.
pub open spec fn suffix_multiplier_spec(s: Seq<char>) -> Option<u64> {
    if s.len() == 0 {
        Some(1u64)
    } else if eq_ci(s, "kb"@) {
        Some(1000u64)
    } else if eq_ci(s, "kib"@) {
        Some(1024u64)
    } else if eq_ci(s, "mb"@) {
        Some(1000000u64)
    } else if eq_ci(s, "mib"@) {
        Some(1048576u64)
    } else if eq_ci(s, "gb"@) {
        Some(1000000000u64)
    } else if eq_ci(s, "gib"@) {
        Some(1073741824u64)
    } else if eq_ci(s, "tb"@) {
        Some(1000000000000u64)
    } else if eq_ci(s, "tib"@) {
        Some(1099511627776u64)
    } else if eq_ci(s, "pb"@) {
        Some(1000000000000000u64)
    } else if eq_ci(s, "pib"@) {
        Some(1125899906842624u64)
    } else {
        None
    }
}

/// Recognises a scale suffix in `s` from position `start` on.
fn suffix_multiplier(s: &str, start: usize) -> (r: Option<u64>)
    requires
        start <= s@.len(),
    ensures
        r == suffix_multiplier_spec(s@.skip(start as int)),
{
    let n: usize = s.unicode_len();
    if start == n {
        proof {
            assert(s@.skip(start as int).len() == 0);
        }
        return Some(1);
    }
    if match_ci(s, start, "kb") {
        Some(1000)
    } else if match_ci(s, start, "kib") {
        Some(1024)
    } else if match_ci(s, start, "mb") {
        Some(1000000)
    } else if match_ci(s, start, "mib") {
        Some(1048576)
    } else if match_ci(s, start, "gb") {
        Some(1000000000)
    } else if match_ci(s, start, "gib") {
        Some(1073741824)
    } else if match_ci(s, start, "tb") {
        Some(1000000000000)
    } else if match_ci(s, start, "tib") {
        Some(1099511627776)
    } else if match_ci(s, start, "pb") {
        Some(1000000000000000)
    } else if match_ci(s, start, "pib") {
        Some(1125899906842624)
    } else {
        None
    }
}

/// The radix that the first characters of a size literal declare, and how
/// many characters the declaration takes.
pub open spec fn size_radix_spec(s: Seq<char>) -> (u64, int) {
    if s.len() >= 2 && s[0] == '0' && (s[1] == 'b' || s[1] == 'B') {
        (2u64, 2)
    } else if s.len() >= 2 && s[0] == '0' && (s[1] == 'x' || s[1] == 'X') {
        (16u64, 2)
    } else if s.len() >= 2 && s[0] == '0' && (s[1] == 'o' || s[1] == 'O') {
        (8u64, 2)
    } else {
        (10u64, 0)
    }
}

/// What parsing a whole size literal yields: radix declaration, number,
/// then a scale suffix.
pub open spec fn parse_file_size_spec(s: Seq<char>) -> Result<u64, FileSizeError> {
    let (radix, off) = size_radix_spec(s);
    match parse_prefix_spec(s.skip(off), radix, 0) {
        Err(ParseIntError::Overflow) => Err(FileSizeError::Overflow),
        Ok((v, rem)) => match suffix_multiplier_spec(rem) {
            None => Err(FileSizeError::InvalidSuffix),
            Some(m) => if v * m <= u64::MAX {
                Ok((v * m) as u64)
            } else {
                Err(FileSizeError::Overflow)
            },
        },
    }
}

/// Parses a file-size literal: a number in binary, octal, decimal or
/// hexadecimal with optional `_` separators, scaled by an optional
/// suffix (`kb`/`kib` up to `pb`/`pib`, case-insensitive).
pub fn parse_file_size(text: &str) -> (r: Result<u64, FileSizeError>)
    ensures
        r == parse_file_size_spec(text@),
{
    let n: usize = text.unicode_len();
    let mut radix: u64 = 10;
    let mut off: usize = 0;
    if n >= 2 && text.get_char(0) == '0' {
        let c = text.get_char(1);
        if c == 'b' || c == 'B' {
            radix = 2;
            off = 2;
        } else if c == 'x' || c == 'X' {
            radix = 16;
            off = 2;
        } else if c == 'o' || c == 'O' {
            radix = 8;
            off = 2;
        }
    }
    proof {
        assert((radix, off as int) == size_radix_spec(text@));
    }
    let body = text.substring_char(off, n);
    let parsed = parse_number_prefix(body, radix);
    match parsed {
        Err(ParseIntError::Overflow) => Err(FileSizeError::Overflow),
        Ok((v, rem)) => {
            let mult = suffix_multiplier(rem, 0);
            proof {
                assert(rem@.skip(0) =~= rem@);
            }
            match mult {
                None => Err(FileSizeError::InvalidSuffix),
                Some(m) => match v.checked_mul(m) {
                    Some(total) => Ok(total),
                    None => Err(FileSizeError::Overflow),
                },
            }
        },
    }
}

/// Whether `c` is a decimal digit.
pub open spec fn is_dec_digit(c: char) -> bool {
    48 <= c as u32 && c as u32 <= 57
}

/// The numeric value of a decimal digit character.
pub open spec fn dval(c: char) -> nat {
    (c as u32 - 48) as nat
}

/// Whether every character of `s` is a decimal digit.
pub open spec fn all_digits(s: Seq<char>) -> bool {
    forall|i: int| 0 <= i < s.len() ==> #[trigger] is_dec_digit(s[i])
}

/// The decimal digit character for `d`.
pub open spec fn digit_char(d: nat) -> char {
    if d == 0 {
        '0'
    } else if d == 1 {
        '1'
    } else if d == 2 {
        '2'
    } else if d == 3 {
        '3'
    } else if d == 4 {
        '4'
    } else if d == 5 {
        '5'
    } else if d == 6 {
        '6'
    } else if d == 7 {
        '7'
    } else if d == 8 {
        '8'
    } else {
        '9'
    }
}

/// The decimal rendering of `n`, most significant digit first.
pub open spec fn dec_digits(n: nat) -> Seq<char>
    decreases n,
{
    if n < 10 {
        seq![digit_char(n)]
    } else {
        dec_digits(n / 10).push(digit_char(n % 10))
    }
}

/// The number that a sequence of decimal digits denotes.
pub open spec fn seq_value(s: Seq<char>) -> nat
    decreases s.len(),
{
    if s.len() == 0 {
        0
    } else {
        seq_value(s.drop_last()) * 10 + dval(s.last())
    }
}

/// Ten to the `k`.
pub open spec fn pow10(k: nat) -> nat
    decreases k,
{
    if k == 0 {
        1
    } else {
        10 * pow10((k - 1) as nat)
    }
}

pub proof fn lemma_pow10_pos(k: nat)
    ensures
        pow10(k) >= 1,
    decreases k,
{
    if k > 0 {
        lemma_pow10_pos((k - 1) as nat);
    }
}

/// Prepending a digit scales its value by ten to the length of the rest.
proof fn lemma_seq_value_cons(c: char, t: Seq<char>)
    requires
        is_dec_digit(c),
    ensures
        seq_value(seq![c] + t) == dval(c) * pow10(t.len()) + seq_value(t),
    decreases t.len(),
{
    if t.len() == 0 {
        assert(seq![c] + t =~= seq![c]);
        assert((seq![c]).drop_last() =~= Seq::<char>::empty());
        assert((seq![c]).last() == c);
        assert(seq_value(Seq::<char>::empty()) == 0);
        assert(seq_value(seq![c]) == 0 * 10 + dval(c));
        assert(pow10(t.len()) == 1);
        assert(seq_value(seq![c] + t) == dval(c) * 1 + 0);
    } else {
        let u = seq![c] + t;
        assert(u.drop_last() =~= seq![c] + t.drop_last());
        assert(u.last() == t.last());
        lemma_seq_value_cons(c, t.drop_last());
        assert((dval(c) * pow10(t.drop_last().len()) + seq_value(t.drop_last())) * 10 + dval(
            t.last(),
        ) == dval(c) * (10 * pow10(t.drop_last().len())) + (seq_value(t.drop_last()) * 10 + dval(
            t.last(),
        ))) by (nonlinear_arith);
        assert(pow10(t.len()) == 10 * pow10(t.drop_last().len()));
    }
}

/// Reading a run of decimal digits followed by text that starts with no
/// digit yields exactly the run's value.
pub proof fn lemma_parse_digits(s: Seq<char>, rest: Seq<char>, acc: u64)
    requires
        all_digits(s),
        rest.len() == 0 || (rest[0] != '_' && digit_value_spec(rest[0], 10) is None),
        acc * pow10(s.len()) + seq_value(s) <= u64::MAX,
    ensures
        parse_prefix_spec(s + rest, 10, acc) == Ok::<(u64, Seq<char>), ParseIntError>((
            (acc * pow10(s.len()) + seq_value(s)) as u64,
            rest,
        )),
    decreases s.len(),
{
    lemma_pow10_pos(s.len());
    if s.len() == 0 {
        assert(s + rest =~= rest);
        assert(acc * 1 == acc) by (nonlinear_arith);
        if rest.len() == 0 {
        } else {
        }
    } else {
        let c = s[0];
        let t = s.skip(1);
        let u = s + rest;
        assert(is_dec_digit(c));
        assert(u[0] == c);
        let d = dval(c);
        assert(digit_value_spec(c, 10) == Some(d as u64));
        assert(s =~= seq![c] + t);
        lemma_seq_value_cons(c, t);
        lemma_pow10_pos(t.len());
        assert(pow10(s.len()) == 10 * pow10(t.len()));
        // the whole value bounds the first step
        assert((acc * 10 + d) * pow10(t.len()) + seq_value(t) == acc * (10 * pow10(t.len())) + (d
            * pow10(t.len()) + seq_value(t))) by (nonlinear_arith);
        assert(acc * 10 + d <= (acc * 10 + d) * pow10(t.len())) by (nonlinear_arith)
            requires
                pow10(t.len()) >= 1,
                acc >= 0,
                d >= 0,
        ;
        assert(acc * 10 + d <= u64::MAX);
        let acc2 = (acc * 10 + d) as u64;
        assert(u.skip(1) =~= t + rest);
        assert(forall|i: int| 0 <= i < t.len() ==> #[trigger] is_dec_digit(t[i]) && t[i] == s[i + 1]);
        lemma_parse_digits(t, rest, acc2);
    }
}

/// The decimal rendering of `n` is all digits, denotes `n`, and has no
/// leading zero unless `n` is zero.
pub proof fn lemma_dec_digits(n: nat)
    ensures
        all_digits(dec_digits(n)),
        seq_value(dec_digits(n)) == n,
        dec_digits(n).len() >= 1,
        n >= 1 ==> dec_digits(n)[0] != '0',
    decreases n,
{
    if n < 10 {
        let s = seq![digit_char(n)];
        assert(s.drop_last() =~= Seq::<char>::empty());
        assert(s.last() == digit_char(n));
        assert(is_dec_digit(digit_char(n)));
        assert(dval(digit_char(n)) == n);
        assert(seq_value(Seq::<char>::empty()) == 0);
        assert(seq_value(s) == 0 * 10 + dval(digit_char(n)));
    } else {
        lemma_dec_digits(n / 10);
        let p = dec_digits(n / 10);
        let s = p.push(digit_char(n % 10));
        assert(s.drop_last() =~= p);
        assert(s.last() == digit_char(n % 10));
        assert(is_dec_digit(digit_char(n % 10)));
        assert(dval(digit_char(n % 10)) == n % 10);
        assert(seq_value(s) == (n / 10) * 10 + n % 10);
        assert((n / 10) * 10 + n % 10 == n) by (nonlinear_arith);
        assert(s[0] == p[0]);
        assert(forall|i: int| 0 <= i < s.len() ==> #[trigger] is_dec_digit(s[i]));
    }
}

/// The canonical scale for rendering `n`: the largest suffix whose
/// multiplier divides `n` evenly, or one.
pub open spec fn chosen_scale(n: u64) -> u64 {
    if n > 0 && n % 1125899906842624 == 0 {
        1125899906842624u64
    } else if n > 0 && n % 1000000000000000 == 0 {
        1000000000000000u64
    } else if n > 0 && n % 1099511627776 == 0 {
        1099511627776u64
    } else if n > 0 && n % 1000000000000 == 0 {
        1000000000000u64
    } else if n > 0 && n % 1073741824 == 0 {
        1073741824u64
    } else if n > 0 && n % 1000000000 == 0 {
        1000000000u64
    } else if n > 0 && n % 1048576 == 0 {
        1048576u64
    } else if n > 0 && n % 1000000 == 0 {
        1000000u64
    } else if n > 0 && n % 1024 == 0 {
        1024u64
    } else if n > 0 && n % 1000 == 0 {
        1000u64
    } else {
        1u64
    }
}

/// The canonical spelling of a scale's suffix.
pub open spec fn scale_suffix(m: u64) -> Seq<char> {
    if m == 1125899906842624 {
        "pib"@
    } else if m == 1000000000000000 {
        "pb"@
    } else if m == 1099511627776 {
        "tib"@
    } else if m == 1000000000000 {
        "tb"@
    } else if m == 1073741824 {
        "gib"@
    } else if m == 1000000000 {
        "gb"@
    } else if m == 1048576 {
        "mib"@
    } else if m == 1000000 {
        "mb"@
    } else if m == 1024 {
        "kib"@
    } else if m == 1000 {
        "kb"@
    } else {
        ""@
    }
}

/// The canonical rendering of a size: the mantissa in decimal, followed
/// by the largest suffix that divides the size evenly.
pub open spec fn format_file_size_spec(n: u64) -> Seq<char> {
    dec_digits((n / chosen_scale(n)) as nat) + scale_suffix(chosen_scale(n))
}

/// Parsing the canonical rendering of a size yields the size back:
/// the size parser and the size formatter are inverse on every `u64`.
pub proof fn lemma_file_size_round_trip(n: u64)
    ensures
        parse_file_size_spec(format_file_size_spec(n)) == Ok::<u64, FileSizeError>(n),
{
    reveal_strlit("");
    reveal_strlit("kb");
    reveal_strlit("kib");
    reveal_strlit("mb");
    reveal_strlit("mib");
    reveal_strlit("gb");
    reveal_strlit("gib");
    reveal_strlit("tb");
    reveal_strlit("tib");
    reveal_strlit("pb");
    reveal_strlit("pib");
    let m = chosen_scale(n);
    vstd::arithmetic::div_mod::lemma_fundamental_div_mod(n as int, m as int);
    let q = (n / m) as nat;
    assert(q * m == n);
    let digs = dec_digits(q);
    let suf = scale_suffix(m);
    let s = digs + suf;
    assert(format_file_size_spec(n) == s);
    lemma_dec_digits(q);
    // the rendering never carries a radix declaration
    assert(s[0] == digs[0]);
    if n == 0 {
        assert(m == 1 && q == 0 && suf.len() == 0);
        assert(s.len() == 1);
    } else {
        assert(q >= 1);
        assert(s[0] != '0');
    }
    assert(size_radix_spec(s) == (10u64, 0int));
    assert(s.skip(0) =~= s);
    // the digits parse back to the mantissa
    assert(suf.len() == 0 || (suf[0] != '_' && digit_value_spec(suf[0], 10) is None));
    assert(0 * pow10(digs.len()) + seq_value(digs) == q);
    lemma_parse_digits(digs, suf, 0);
    assert(parse_prefix_spec(s, 10, 0) == Ok::<(u64, Seq<char>), ParseIntError>((q as u64, suf)));
    // the canonical suffix names exactly the chosen scale
    if m == 1 {
        assert(suffix_multiplier_spec(suf) == Some(1u64));
    } else if m == 1000 {
        assert(eq_ci(suf, "kb"@));
    } else if m == 1024 {
        assert(!eq_ci(suf, "kb"@));
        assert(eq_ci(suf, "kib"@));
    } else if m == 1000000 {
        assert(lower_code("mb"@[0]) != lower_code("kb"@[0]));
        assert(!eq_ci(suf, "kib"@));
        assert(eq_ci(suf, "mb"@));
    } else if m == 1048576 {
        assert(!eq_ci(suf, "kb"@));
        assert(lower_code("mib"@[0]) != lower_code("kib"@[0]));
        assert(eq_ci(suf, "mib"@));
    } else if m == 1000000000 {
        assert(lower_code("gb"@[0]) != lower_code("kb"@[0]));
        assert(lower_code("gb"@[0]) != lower_code("mb"@[0]));
        assert(!eq_ci(suf, "kib"@));
        assert(eq_ci(suf, "gb"@));
    } else if m == 1073741824 {
        assert(!eq_ci(suf, "kb"@));
        assert(lower_code("gib"@[0]) != lower_code("kib"@[0]));
        assert(lower_code("gib"@[0]) != lower_code("mib"@[0]));
        assert(eq_ci(suf, "gib"@));
    } else if m == 1000000000000 {
        assert(lower_code("tb"@[0]) != lower_code("kb"@[0]));
        assert(lower_code("tb"@[0]) != lower_code("mb"@[0]));
        assert(lower_code("tb"@[0]) != lower_code("gb"@[0]));
        assert(!eq_ci(suf, "kib"@));
        assert(eq_ci(suf, "tb"@));
    } else if m == 1099511627776 {
        assert(!eq_ci(suf, "kb"@));
        assert(lower_code("tib"@[0]) != lower_code("kib"@[0]));
        assert(lower_code("tib"@[0]) != lower_code("mib"@[0]));
        assert(lower_code("tib"@[0]) != lower_code("gib"@[0]));
        assert(eq_ci(suf, "tib"@));
    } else if m == 1000000000000000 {
        assert(lower_code("pb"@[0]) != lower_code("kb"@[0]));
        assert(lower_code("pb"@[0]) != lower_code("mb"@[0]));
        assert(lower_code("pb"@[0]) != lower_code("gb"@[0]));
        assert(lower_code("pb"@[0]) != lower_code("tb"@[0]));
        assert(!eq_ci(suf, "kib"@));
        assert(eq_ci(suf, "pb"@));
    } else {
        assert(m == 1125899906842624);
        assert(!eq_ci(suf, "kb"@));
        assert(lower_code("pib"@[0]) != lower_code("kib"@[0]));
        assert(lower_code("pib"@[0]) != lower_code("mib"@[0]));
        assert(lower_code("pib"@[0]) != lower_code("gib"@[0]));
        assert(lower_code("pib"@[0]) != lower_code("tib"@[0]));
        assert(eq_ci(suf, "pib"@));
    }
    assert(suffix_multiplier_spec(suf) == Some(m));
    assert(q * m <= u64::MAX);
}

fn digit_str(d: u64) -> (r: &'static str)
    requires
        d < 10,
    ensures
        r@ =~= seq![digit_char(d as nat)],
{
    proof {
        reveal_strlit("0");
        reveal_strlit("1");
        reveal_strlit("2");
        reveal_strlit("3");
        reveal_strlit("4");
        reveal_strlit("5");
        reveal_strlit("6");
        reveal_strlit("7");
        reveal_strlit("8");
        reveal_strlit("9");
    }
    if d == 0 {
        "0"
    } else if d == 1 {
        "1"
    } else if d == 2 {
        "2"
    } else if d == 3 {
        "3"
    } else if d == 4 {
        "4"
    } else if d == 5 {
        "5"
    } else if d == 6 {
        "6"
    } else if d == 7 {
        "7"
    } else if d == 8 {
        "8"
    } else {
        "9"
    }
}

fn dec_string(q: u64) -> (r: String)
    ensures
        r@ == dec_digits(q as nat),
    decreases q,
{
    if q < 10 {
        let s = digit_str(q);
        s.to_owned()
    } else {
        let mut s = dec_string(q / 10);
        s.append(digit_str(q % 10));
        proof {
            assert(dec_digits((q / 10) as nat).push(digit_char((q % 10) as nat)) =~= dec_digits(
                (q / 10) as nat,
            ) + seq![digit_char((q % 10) as nat)]);
        }
        s
    }
}

/// Renders a size canonically, so that parsing it back yields the size.
pub fn format_file_size(n: u64) -> (r: String)
    ensures
        r@ == format_file_size_spec(n),
{
    let mut scale: u64 = 1;
    let mut suffix: &'static str = "";
    if n > 0 && n % 1125899906842624 == 0 {
        scale = 1125899906842624;
        suffix = "pib";
    } else if n > 0 && n % 1000000000000000 == 0 {
        scale = 1000000000000000;
        suffix = "pb";
    } else if n > 0 && n % 1099511627776 == 0 {
        scale = 1099511627776;
        suffix = "tib";
    } else if n > 0 && n % 1000000000000 == 0 {
        scale = 1000000000000;
        suffix = "tb";
    } else if n > 0 && n % 1073741824 == 0 {
        scale = 1073741824;
        suffix = "gib";
    } else if n > 0 && n % 1000000000 == 0 {
        scale = 1000000000;
        suffix = "gb";
    } else if n > 0 && n % 1048576 == 0 {
        scale = 1048576;
        suffix = "mib";
    } else if n > 0 && n % 1000000 == 0 {
        scale = 1000000;
        suffix = "mb";
    } else if n > 0 && n % 1024 == 0 {
        scale = 1024;
        suffix = "kib";
    } else if n > 0 && n % 1000 == 0 {
        scale = 1000;
        suffix = "kb";
    }
    proof {
        assert(scale == chosen_scale(n));
        assert(suffix@ == scale_suffix(scale));
    }
    let mut s = dec_string(n / scale);
    s.append(suffix);
    s
}

} // verus!
