//! Which tokens are number literals.
//!
//! A number literal is a decimal number as the standard library reads one:
//!
//! ```text
//! Float  ::= Sign? ( 'inf' | 'infinity' | 'nan' | Number )
//! Number ::= ( Digit+ | Digit+ '.' Digit* | Digit* '.' Digit+ ) Exp?
//! Exp    ::= 'e' Sign? Digit+
//! Sign   ::= [+-]
//! Digit  ::= [0-9]
//! ```
//!
//! with letters in either case. Every other token is a name. What number a
//! literal stands for is not decided here.

use vstd::prelude::*;
use vstd::string::is_ascii_spec_bytes;
use vstd::utf8::is_ascii_chars;

verus! {

/// `Digit`: a decimal digit.
pub open spec fn is_digit(c: char) -> bool {
    '0' <= c <= '9'
}

/// `Sign`: a plus or a minus.
pub open spec fn is_sign(c: char) -> bool {
    c == '+' || c == '-'
}

/// Whether `c` is the lower-case letter `letter` or its capital.
pub open spec fn is_letter(c: char, letter: char) -> bool {
    c == letter || c as int + 32 == letter as int
}

/// Whether `s` spells the lower-case word `word`, in any mix of cases.
pub open spec fn spells(s: Seq<char>, word: Seq<char>) -> bool {
    s.len() == word.len() && forall|i: int|
        0 <= i < s.len() ==> is_letter(#[trigger] s[i], word[i])
}

/// The number of digits that `s` starts with.
pub open spec fn digits_len(s: Seq<char>) -> nat
    decreases s.len(),
{
    if s.len() == 0 || !is_digit(s[0]) {
        0
    } else {
        1 + digits_len(s.drop_first())
    }
}

/// `'inf' | 'infinity' | 'nan'`, all of `s`.
pub open spec fn is_special(s: Seq<char>) -> bool {
    spells(s, "inf"@) || spells(s, "infinity"@) || spells(s, "nan"@)
}

/// `Exp`, all of `s`: an `e`, a sign or none, and digits to the end, at
/// least one.
pub open spec fn is_exponent(s: Seq<char>) -> bool {
    s.len() >= 1 && is_letter(s[0], 'e') && {
        let digits = if s.len() >= 2 && is_sign(s[1]) {
            s.skip(2)
        } else {
            s.skip(1)
        };
        digits.len() > 0 && digits_len(digits) == digits.len()
    }
}

/// `Number`, all of `s`: digits with at most one point among them, at least
/// one digit in all, and an exponent or nothing behind them.
pub open spec fn is_decimal(s: Seq<char>) -> bool {
    let whole = digits_len(s) as int;
    let behind = s.skip(whole);
    if behind.len() > 0 && behind[0] == '.' {
        let fraction = digits_len(behind.skip(1)) as int;
        let rest = behind.skip(1 + fraction);
        whole + fraction > 0 && (rest.len() == 0 || is_exponent(rest))
    } else {
        whole > 0 && (behind.len() == 0 || is_exponent(behind))
    }
}

/// `s` without its sign, if it starts with one.
pub open spec fn unsigned(s: Seq<char>) -> Seq<char> {
    if s.len() > 0 && is_sign(s[0]) {
        s.skip(1)
    } else {
        s
    }
}

/// `Float`: whether the token `s` is a number literal.
pub open spec fn is_number(s: Seq<char>) -> bool {
    is_special(unsigned(s)) || is_decimal(unsigned(s))
}

/// The characters that these bytes stand for where each byte is one
/// character.
pub open spec fn as_chars(bytes: Seq<u8>) -> Seq<char> {
    Seq::new(bytes.len(), |i: int| bytes[i] as char)
}

/// `digits_len` counts digits, stops at the first character that is none,
/// and nowhere before it.
pub proof fn lemma_digits_len(s: Seq<char>)
    ensures
        digits_len(s) <= s.len(),
        forall|i: int| 0 <= i < digits_len(s) ==> is_digit(#[trigger] s[i]),
        digits_len(s) < s.len() ==> !is_digit(s[digits_len(s) as int]),
    decreases s.len(),
{
    if s.len() == 0 || !is_digit(s[0]) {
    } else {
        let rest = s.drop_first();
        lemma_digits_len(rest);
        assert forall|i: int| 0 <= i < digits_len(s) implies is_digit(#[trigger] s[i]) by {
            if i > 0 {
                assert(s[i] == rest[i - 1]);
            }
        }
        if digits_len(s) < s.len() {
            assert(s[digits_len(s) as int] == rest[digits_len(rest) as int]);
        }
    }
}

/// A position with a character that is no digit (or the end) and only
/// digits before it is where `digits_len` stops.
pub proof fn lemma_digits_len_is(s: Seq<char>, n: int)
    requires
        0 <= n <= s.len(),
        forall|i: int| 0 <= i < n ==> is_digit(#[trigger] s[i]),
        n < s.len() ==> !is_digit(s[n]),
    ensures
        digits_len(s) == n,
    decreases s.len(),
{
    if n == 0 {
    } else {
        let rest = s.drop_first();
        assert(is_digit(s[0]));
        assert forall|i: int| 0 <= i < n - 1 implies is_digit(#[trigger] rest[i]) by {
            assert(rest[i] == s[i + 1]);
        }
        lemma_digits_len_is(rest, n - 1);
    }
}

/// A number literal holds ASCII characters only.
pub proof fn lemma_numbers_are_ascii(s: Seq<char>)
    requires
        is_number(s),
    ensures
        is_ascii_chars(s),
{
    reveal_strlit("inf");
    reveal_strlit("infinity");
    reveal_strlit("nan");
    let body = unsigned(s);
    assert forall|i: int| 0 <= i < body.len() implies '\0' <= #[trigger] body[i] <= '\u{7f}' by {
        if spells(body, "inf"@) {
            assert(is_letter(body[i], "inf"@[i]));
        } else if spells(body, "infinity"@) {
            assert(is_letter(body[i], "infinity"@[i]));
        } else if spells(body, "nan"@) {
            assert(is_letter(body[i], "nan"@[i]));
        } else {
            lemma_decimals_are_ascii(body, i);
        }
    }
    assert forall|i: int| 0 <= i < s.len() implies '\0' <= #[trigger] s[i] <= '\u{7f}' by {
        if s.len() > 0 && is_sign(s[0]) {
            if i > 0 {
                assert(s[i] == body[i - 1]);
            }
        }
    }
}

/// Each character of a `Number` is a digit, a point, a sign or an `e`.
proof fn lemma_decimals_are_ascii(s: Seq<char>, i: int)
    requires
        is_decimal(s),
        0 <= i < s.len(),
    ensures
        '\0' <= s[i] <= '\u{7f}',
{
    let whole = digits_len(s) as int;
    lemma_digits_len(s);
    let behind = s.skip(whole);
    if i < whole {
        assert(is_digit(s[i]));
    } else if behind[0] == '.' {
        let fraction = digits_len(behind.skip(1)) as int;
        lemma_digits_len(behind.skip(1));
        let rest = behind.skip(1 + fraction);
        if i == whole {
            assert(s[i] == behind[0]);
        } else if i < whole + 1 + fraction {
            assert(s[i] == behind.skip(1)[i - whole - 1]);
            assert(is_digit(behind.skip(1)[i - whole - 1]));
        } else {
            assert(s[i] == rest[i - whole - 1 - fraction]);
            lemma_exponents_are_ascii(rest, i - whole - 1 - fraction);
        }
    } else {
        assert(s[i] == behind[i - whole]);
        lemma_exponents_are_ascii(behind, i - whole);
    }
}

/// Each character of an `Exp` is an `e`, a sign or a digit.
proof fn lemma_exponents_are_ascii(s: Seq<char>, i: int)
    requires
        is_exponent(s),
        0 <= i < s.len(),
    ensures
        '\0' <= s[i] <= '\u{7f}',
{
    let signed = s.len() >= 2 && is_sign(s[1]);
    let digits = if signed {
        s.skip(2)
    } else {
        s.skip(1)
    };
    lemma_digits_len(digits);
    if i == 0 {
    } else if signed && i == 1 {
    } else if signed {
        assert(s[i] == digits[i - 2]);
        assert(is_digit(digits[i - 2]));
    } else {
        assert(s[i] == digits[i - 1]);
        assert(is_digit(digits[i - 1]));
    }
}

/// Whether the byte is a decimal digit.
fn digit(byte: u8) -> (r: bool)
    ensures
        r == is_digit(byte as char),
{
    '0' as u8 <= byte && byte <= '9' as u8
}

/// Whether the byte is a plus or a minus.
fn sign(byte: u8) -> (r: bool)
    ensures
        r == is_sign(byte as char),
{
    byte == '+' as u8 || byte == '-' as u8
}

/// The number of digits among `bytes` from `from` on, up to the first byte
/// that is none.
fn count_digits(bytes: &[u8], from: usize) -> (n: usize)
    requires
        from <= bytes.len(),
    ensures
        n == digits_len(as_chars(bytes@).skip(from as int)),
        from + n <= bytes.len(),
{
    let mut at: usize = from;
    while at < bytes.len() && digit(bytes[at])
        invariant
            from <= at <= bytes.len(),
            forall|i: int| from <= i < at ==> is_digit(#[trigger] as_chars(bytes@)[i]),
        decreases bytes.len() - at,
    {
        at += 1;
    }
    proof {
        let rest = as_chars(bytes@).skip(from as int);
        assert forall|i: int| 0 <= i < at - from implies is_digit(#[trigger] rest[i]) by {
            assert(rest[i] == as_chars(bytes@)[from + i]);
        }
        if at < bytes.len() {
            assert(rest[at - from] == as_chars(bytes@)[at as int]);
        }
        lemma_digits_len_is(rest, at - from);
    }
    at - from
}

/// Whether the bytes from `from` on spell `word`, in any mix of cases.
fn spells_from(bytes: &[u8], from: usize, word: &str) -> (r: bool)
    requires
        from <= bytes.len(),
        is_ascii_chars(word@),
    ensures
        r == spells(as_chars(bytes@).skip(from as int), word@),
{
    let letters = word.as_bytes();
    proof {
        is_ascii_spec_bytes(word);
    }
    let ghost rest = as_chars(bytes@).skip(from as int);
    if bytes.len() - from != letters.len() {
        return false;
    }
    let mut i: usize = 0;
    while i < letters.len()
        invariant
            i <= letters.len(),
            from + letters.len() == bytes.len(),
            rest == as_chars(bytes@).skip(from as int),
            is_ascii_chars(word@),
            letters@ == Seq::new(word@.len(), |k: int| word@.index(k) as u8),
            forall|k: int| 0 <= k < i ==> is_letter(#[trigger] rest[k], word@[k]),
        decreases letters.len() - i,
    {
        let byte: u8 = bytes[from + i];
        let letter: u8 = letters[i];
        proof {
            assert(rest[i as int] == byte as char);
            assert(letter == word@[i as int] as u8);
        }
        if !(byte == letter || (byte <= u8::MAX - 32 && byte + 32 == letter)) {
            return false;
        }
        i += 1;
    }
    true
}

/// Whether the bytes from `from` on are `'inf' | 'infinity' | 'nan'`.
fn special_from(bytes: &[u8], from: usize) -> (r: bool)
    requires
        from <= bytes.len(),
    ensures
        r == is_special(as_chars(bytes@).skip(from as int)),
{
    proof {
        reveal_strlit("inf");
        reveal_strlit("infinity");
        reveal_strlit("nan");
    }
    spells_from(bytes, from, "inf") || spells_from(bytes, from, "infinity") || spells_from(
        bytes,
        from,
        "nan",
    )
}

/// Whether the bytes from `from` on are an `Exp`.
fn exponent_from(bytes: &[u8], from: usize) -> (r: bool)
    requires
        from <= bytes.len(),
    ensures
        r == is_exponent(as_chars(bytes@).skip(from as int)),
{
    let ghost all = as_chars(bytes@);
    let ghost s = all.skip(from as int);
    if from == bytes.len() {
        return false;
    }
    assert(s[0] == all[from as int]);
    if !(bytes[from] == 'e' as u8 || bytes[from] == 'E' as u8) {
        return false;
    }
    let mut digits_from: usize = from + 1;
    if digits_from < bytes.len() {
        assert(s[1] == all[from + 1]);
        if sign(bytes[digits_from]) {
            digits_from += 1;
        }
    }
    let digits: usize = count_digits(bytes, digits_from);
    proof {
        if s.len() >= 2 && is_sign(s[1]) {
            assert(all.skip(digits_from as int) =~= s.skip(2));
        } else {
            assert(all.skip(digits_from as int) =~= s.skip(1));
        }
    }
    digits > 0 && digits_from + digits == bytes.len()
}

/// Whether the bytes from `from` on are a `Number`.
fn decimal_from(bytes: &[u8], from: usize) -> (r: bool)
    requires
        from <= bytes.len(),
    ensures
        r == is_decimal(as_chars(bytes@).skip(from as int)),
{
    let ghost all = as_chars(bytes@);
    let ghost s = all.skip(from as int);
    let whole: usize = count_digits(bytes, from);
    let point: usize = from + whole;
    let ghost behind = s.skip(whole as int);
    proof {
        assert(all.skip(point as int) =~= behind);
        if point < bytes.len() {
            assert(behind[0] == all[point as int]);
        }
    }
    if point < bytes.len() && bytes[point] == '.' as u8 {
        let fraction: usize = count_digits(bytes, point + 1);
        proof {
            assert(all.skip(point + 1) =~= behind.skip(1));
            assert(all.skip(point + 1 + fraction) =~= behind.skip(1 + fraction));
        }
        let rest: usize = point + 1 + fraction;
        whole + fraction > 0 && (rest == bytes.len() || exponent_from(bytes, rest))
    } else {
        whole > 0 && (point == bytes.len() || exponent_from(bytes, point))
    }
}

/// Whether `token` is a number literal.
pub fn is_number_literal(token: &str) -> (r: bool)
    ensures
        r == is_number(token@),
{
    if !token.is_ascii() {
        proof {
            if is_number(token@) {
                lemma_numbers_are_ascii(token@);
            }
        }
        return false;
    }
    let bytes = token.as_bytes();
    proof {
        is_ascii_spec_bytes(token);
        assert(as_chars(bytes@) =~= token@);
    }
    let start: usize = if bytes.len() > 0 && sign(bytes[0]) {
        1
    } else {
        0
    };
    proof {
        if bytes.len() > 0 {
            assert(token@[0] == bytes[0] as char);
        }
        assert(token@.skip(start as int) =~= unsigned(token@));
    }
    special_from(bytes, start) || decimal_from(bytes, start)
}

} // verus!
