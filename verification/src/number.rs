//! The grammar of decimal numbers.
//!
//! The library keeps numbers as text and leaves their conversion to its
//! caller. What it decides itself is whether text is a number at all, by the
//! grammar that the standard library documents for parsing a float:
//!
//! ```text
//! Float  ::= Sign? ( 'inf' | 'infinity' | 'nan' | Number )
//! Number ::= ( Digit+ | Digit+ '.' Digit* | Digit* '.' Digit+ ) Exp?
//! Exp    ::= 'e' Sign? Digit+
//! Sign   ::= [+-]
//! Digit  ::= [0-9]
//! ```
//!
//! Letters count in either case.

use crate::text::{lemma_run_length_is, run_length};
use vstd::prelude::*;

verus! {

/// A decimal digit.
pub open spec fn is_digit(c: char) -> bool {
    0x30 <= c as u32 <= 0x39
}

/// The predicate of decimal digits.
pub open spec fn digit() -> spec_fn(char) -> bool {
    |c: char| is_digit(c)
}

/// A plus or minus sign.
pub open spec fn is_sign(c: char) -> bool {
    c == '+' || c == '-'
}

/// `c` is the lower-case letter `letter` or its upper-case form.
pub open spec fn is_letter(c: char, letter: char) -> bool {
    c == letter || c as u32 + 32 == letter as u32
}

/// `s` spells the lower-case word `word`, in either case.
pub open spec fn spells(s: Seq<char>, word: Seq<char>) -> bool {
    &&& s.len() == word.len()
    &&& forall|i: int| 0 <= i < s.len() ==> is_letter(#[trigger] s[i], word[i])
}

/// The word for infinity, short.
pub open spec fn word_inf() -> Seq<char> {
    seq!['i', 'n', 'f']
}

/// The word for infinity, long.
pub open spec fn word_infinity() -> Seq<char> {
    seq!['i', 'n', 'f', 'i', 'n', 'i', 't', 'y']
}

/// The word for not-a-number.
pub open spec fn word_nan() -> Seq<char> {
    seq!['n', 'a', 'n']
}

/// `Exp`: an `e`, an optional sign, and at least one digit.
pub open spec fn is_exponent(s: Seq<char>) -> bool {
    &&& s.len() >= 2
    &&& is_letter(s[0], 'e')
    &&& {
        let digits = if is_sign(s[1]) {
            s.skip(2)
        } else {
            s.skip(1)
        };
        digits.len() > 0 && run_length(digits, digit()) == digits.len()
    }
}

/// `Number`: digits with at most one point among them and at least one
/// digit, then an optional exponent.
pub open spec fn is_number(s: Seq<char>) -> bool {
    let whole = run_length(s, digit());
    let after = s.skip(whole as int);
    if after.len() > 0 && after[0] == '.' {
        let fraction = run_length(after.skip(1), digit());
        let tail = after.skip(1 + fraction as int);
        whole + fraction > 0 && (tail.len() == 0 || is_exponent(tail))
    } else {
        whole > 0 && (after.len() == 0 || is_exponent(after))
    }
}

/// `Float`: an optional sign before a number or one of the three words.
pub open spec fn is_decimal(s: Seq<char>) -> bool {
    let body = if s.len() > 0 && is_sign(s[0]) {
        s.skip(1)
    } else {
        s
    };
    spells(body, word_inf()) || spells(body, word_infinity()) || spells(body, word_nan())
        || is_number(body)
}

/// Whether `c` is the lower-case letter `letter` or its upper-case form.
fn letter_is(c: char, letter: char) -> (r: bool)
    ensures
        r == is_letter(c, letter),
{
    c == letter || c as u32 + 32 == letter as u32
}

/// Whether `c` is a decimal digit.
pub fn digit_is(c: char) -> (r: bool)
    ensures
        r == is_digit(c),
{
    let u = c as u32;
    0x30 <= u && u <= 0x39
}

/// The position after the digits that begin at `from`.
fn skip_digits(chars: &Vec<char>, from: usize, to: usize) -> (end: usize)
    requires
        from <= to <= chars.len(),
    ensures
        from <= end <= to,
        end == from + run_length(chars@.subrange(from as int, to as int), digit()),
{
    let mut i = from;
    while i < to && digit_is(chars[i])
        invariant
            from <= i <= to <= chars.len(),
            forall|t: int| from <= t < i ==> is_digit(#[trigger] chars[t]),
        decreases to - i,
    {
        i += 1;
    }
    proof {
        let part = chars@.subrange(from as int, to as int);
        assert forall|t: int| 0 <= t < i - from implies digit()(#[trigger] part[t]) by {
            assert(part[t] == chars[from + t]);
        }
        lemma_run_length_is(part, digit(), i - from);
    }
    i
}

/// Whether the characters from `from` to `to` spell one of the three words.
fn spells_word(chars: &Vec<char>, from: usize, to: usize) -> (r: bool)
    requires
        from <= to <= chars.len(),
    ensures
        r == {
            let s = chars@.subrange(from as int, to as int);
            spells(s, word_inf()) || spells(s, word_infinity()) || spells(s, word_nan())
        },
{
    let ghost s = chars@.subrange(from as int, to as int);
    let n = to - from;
    if n == 3 {
        let a = chars[from];
        let b = chars[from + 1];
        let c = chars[from + 2];
        proof {
            assert(s[0] == a && s[1] == b && s[2] == c);
        }
        (letter_is(a, 'i') && letter_is(b, 'n') && letter_is(c, 'f')) || (letter_is(a, 'n')
            && letter_is(b, 'a') && letter_is(c, 'n'))
    } else if n == 8 {
        proof {
            assert(s[0] == chars[from as int] && s[1] == chars[from + 1] && s[2] == chars[from + 2]
                && s[3] == chars[from + 3] && s[4] == chars[from + 4] && s[5] == chars[from + 5]
                && s[6] == chars[from + 6] && s[7] == chars[from + 7]);
        }
        letter_is(chars[from], 'i') && letter_is(chars[from + 1], 'n') && letter_is(
            chars[from + 2],
            'f',
        ) && letter_is(chars[from + 3], 'i') && letter_is(chars[from + 4], 'n') && letter_is(
            chars[from + 5],
            'i',
        ) && letter_is(chars[from + 6], 't') && letter_is(chars[from + 7], 'y')
    } else {
        false
    }
}

/// Whether the characters from `from` to `to` are an exponent.
fn exponent_at(chars: &Vec<char>, from: usize, to: usize) -> (r: bool)
    requires
        from <= to <= chars.len(),
    ensures
        r == is_exponent(chars@.subrange(from as int, to as int)),
{
    let ghost s = chars@.subrange(from as int, to as int);
    if to - from < 2 {
        return false;
    }
    proof {
        assert(s[0] == chars[from as int] && s[1] == chars[from + 1]);
    }
    if !letter_is(chars[from], 'e') {
        return false;
    }
    let sign = chars[from + 1];
    let start = if sign == '+' || sign == '-' {
        from + 2
    } else {
        from + 1
    };
    let end = skip_digits(chars, start, to);
    proof {
        assert(s.skip(start - from) =~= chars@.subrange(start as int, to as int));
    }
    start < to && end == to
}

/// Whether the characters from `from` to `to` are digits with an optional
/// point and an optional exponent.
fn number_at(chars: &Vec<char>, from: usize, to: usize) -> (r: bool)
    requires
        from <= to <= chars.len(),
    ensures
        r == is_number(chars@.subrange(from as int, to as int)),
{
    let ghost body = chars@.subrange(from as int, to as int);
    let whole = skip_digits(chars, from, to);
    let ghost after = body.skip(whole - from);
    proof {
        assert(after =~= chars@.subrange(whole as int, to as int));
        if whole < to {
            assert(after[0] == chars[whole as int]);
        }
    }
    if whole < to && chars[whole] == '.' {
        let fraction = skip_digits(chars, whole + 1, to);
        proof {
            assert(after.skip(1) =~= chars@.subrange(whole + 1, to as int));
            assert(after.skip(1 + (fraction - (whole + 1))) =~= chars@.subrange(
                fraction as int,
                to as int,
            ));
        }
        (whole > from || fraction > whole + 1) && (fraction == to || exponent_at(
            chars,
            fraction,
            to,
        ))
    } else {
        whole > from && (whole == to || exponent_at(chars, whole, to))
    }
}

/// Whether the characters from `from` to `to` are a decimal number, as the
/// standard library reads one: an optional sign, then `inf`, `infinity` or
/// `nan` in either case, or digits with an optional point and an optional
/// exponent.
pub fn is_decimal_at(chars: &Vec<char>, from: usize, to: usize) -> (r: bool)
    requires
        from <= to <= chars.len(),
    ensures
        r == is_decimal(chars@.subrange(from as int, to as int)),
{
    let ghost s = chars@.subrange(from as int, to as int);
    let mut start = from;
    if from < to {
        proof {
            assert(s[0] == chars[from as int]);
        }
        if chars[from] == '+' || chars[from] == '-' {
            start = from + 1;
        }
    }
    proof {
        assert(s.skip(start - from) =~= chars@.subrange(start as int, to as int));
        assert(s.skip(0) =~= s);
    }
    spells_word(chars, start, to) || number_at(chars, start, to)
}

/// Whether the text is a decimal number.
pub fn is_decimal_number(text: &str) -> (r: bool)
    ensures
        r == is_decimal(text@),
{
    let chars = crate::text::chars_of(text);
    proof {
        assert(chars@.subrange(0, chars.len() as int) =~= text@);
    }
    is_decimal_at(&chars, 0, chars.len())
}

} // verus!
