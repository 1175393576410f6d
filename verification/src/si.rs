//! SI units and prefixes.

use crate::number::{is_decimal, is_decimal_at};
use crate::text::{chars_of, skip_spaces, skip_whitespace_back, str_equal, trimmed};
use vstd::prelude::*;
use vstd::string::StrSliceExecFns;

verus! {

/// The unit in which a quantity is measured, by the quantity's symbol.
pub open spec fn unit_of(var: Seq<char>) -> Option<Seq<char>> {
    if var == "I"@ {
        Some("A"@)
    } else if var == "R"@ {
        Some("\u{3a9}"@)
    } else if var == "V"@ {
        Some("V"@)
    } else if var == "C"@ {
        Some("F"@)
    } else if var == "P"@ {
        Some("W"@)
    } else {
        None
    }
}

/// The SI unit of the quantity with the symbol `var`: ampere for `I`, ohm
/// for `R`, volt for `V`, farad for `C`, watt for `P`; none for any other.
pub fn var_to_si_unit(var: &str) -> (unit: Option<&'static str>)
    ensures
        unit is Some <==> unit_of(var@) is Some,
        unit is Some ==> unit_of(var@) == Some(unit->0@),
{
    if str_equal(var, "I") {
        Some("A")
    } else if str_equal(var, "R") {
        Some("\u{3a9}")
    } else if str_equal(var, "V") {
        Some("V")
    } else if str_equal(var, "C") {
        Some("F")
    } else if str_equal(var, "P") {
        Some("W")
    } else {
        None
    }
}

/// The power of ten that an SI prefix stands for.
pub open spec fn prefix_exponent(prefix: char) -> Option<int> {
    if prefix == 'p' {
        Some(-12)
    } else if prefix == 'n' {
        Some(-9)
    } else if prefix == '\u{b5}' || prefix == 'u' {
        Some(-6)
    } else if prefix == 'm' {
        Some(-3)
    } else if prefix == 'k' || prefix == 'K' {
        Some(3)
    } else if prefix == 'M' {
        Some(6)
    } else if prefix == 'G' {
        Some(9)
    } else if prefix == 'T' {
        Some(12)
    } else {
        None
    }
}

/// The power of ten of an SI prefix: pico, nano, micro (`u` as well as the
/// micro sign), milli, kilo (`k` or `K`), mega, giga, tera.
pub fn si_exponent(prefix: char) -> (exponent: Option<i32>)
    ensures
        exponent is Some <==> prefix_exponent(prefix) is Some,
        exponent is Some ==> exponent->0 == prefix_exponent(prefix)->0,
{
    if prefix == 'p' {
        Some(-12)
    } else if prefix == 'n' {
        Some(-9)
    } else if prefix == '\u{b5}' || prefix == 'u' {
        Some(-6)
    } else if prefix == 'm' {
        Some(-3)
    } else if prefix == 'k' || prefix == 'K' {
        Some(3)
    } else if prefix == 'M' {
        Some(6)
    } else if prefix == 'G' {
        Some(9)
    } else if prefix == 'T' {
        Some(12)
    } else {
        None
    }
}

/// The two parts of a word that ends a number with an SI prefix: a last
/// character that is an SI prefix gives the power of ten and leaves the
/// digits before it; without one the whole word is the digits and the
/// power is zero. The empty word has no parts.
pub open spec fn si_split(word: Seq<char>) -> Option<(Seq<char>, int)> {
    if word.len() == 0 {
        None
    } else if prefix_exponent(word.last()) is Some {
        Some((word.drop_last(), prefix_exponent(word.last())->0))
    } else {
        Some((word, 0))
    }
}

/// A word as a number with an SI prefix: its parts, where the digits are a
/// decimal number.
pub open spec fn si_word(word: Seq<char>) -> Option<(Seq<char>, int)> {
    match si_split(word) {
        Some((digits, exponent)) => if is_decimal(digits) {
            Some((digits, exponent))
        } else {
            None
        },
        None => None,
    }
}

/// A text as a number with an SI prefix: a decimal number, optionally
/// followed by a prefix, with any white space around it.
pub open spec fn si_number(s: Seq<char>) -> Option<(Seq<char>, int)> {
    si_word(trimmed(s))
}

/// Reads the characters `from..to` as a number with an SI prefix. Gives
/// the position where the digits end and the power of ten.
pub fn si_word_at(chars: &Vec<char>, from: usize, to: usize) -> (r: Option<(usize, i32)>)
    requires
        from <= to <= chars.len(),
    ensures
        match r {
            Some((end, exponent)) => from <= end <= to && si_word(
                chars@.subrange(from as int, to as int),
            ) == Some((chars@.subrange(from as int, end as int), exponent as int)),
            None => si_word(chars@.subrange(from as int, to as int)) is None,
        },
{
    let ghost word = chars@.subrange(from as int, to as int);
    if from == to {
        return None;
    }
    proof {
        assert(word.last() == chars[to - 1]);
        assert(word.drop_last() =~= chars@.subrange(from as int, to - 1));
    }
    let (end, exponent) = match si_exponent(chars[to - 1]) {
        Some(exponent) => (to - 1, exponent),
        None => (to, 0),
    };
    if is_decimal_at(chars, from, end) {
        Some((end, exponent))
    } else {
        None
    }
}

/// Reads a number with an SI prefix, such as `47k`: a decimal number,
/// optionally followed by one of the prefixes, with any white space
/// around it. Gives the digits and the power of ten that the prefix
/// stands for, zero without a prefix; `None` for any other text.
pub fn parse_si_number(s: &str) -> (r: Option<(&str, i32)>)
    ensures
        match r {
            Some((digits, exponent)) => si_number(s@) == Some((digits@, exponent as int)),
            None => si_number(s@) is None,
        },
{
    let chars = chars_of(s);
    let start = skip_spaces(&chars, 0, chars.len());
    let end = skip_whitespace_back(&chars, start, chars.len());
    proof {
        assert(chars@.subrange(0, chars.len() as int) =~= chars@);
        assert(trimmed(s@) =~= chars@.subrange(start as int, end as int));
    }
    match si_word_at(&chars, start, end) {
        Some((digits_end, exponent)) => Some((s.substring_char(start, digits_end), exponent)),
        None => None,
    }
}

} // verus!
