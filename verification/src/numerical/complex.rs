//! Complex scalars as pairs of IEEE-754 binary64 words.

use vstd::prelude::*;

verus! {

/// The sign bit of a binary64 word.
pub const SIGN_BIT: u64 = 0x8000_0000_0000_0000;

/// The binary64 word of `+0.0`.
pub const ZERO_BITS: u64 = 0;

/// The binary64 word of `1.0`.
pub const ONE_BITS: u64 = 0x3ff0_0000_0000_0000;

/// The word of the negated number: the same magnitude with the sign bit flipped.
pub open spec fn negated(word: u64) -> u64 {
    word ^ SIGN_BIT
}

/// A complex number `re + j*im`.
///
/// Each part is the bit pattern of a binary64 float (`f64::to_bits`). The
/// library stores, copies and compares these words; it flips a sign bit, and
/// otherwise leaves arithmetic to its caller. Equality is equality of words,
/// so `+0.0` and `-0.0` differ and a NaN equals itself.
#[allow(non_camel_case_types)]
#[derive(Clone, Copy, Debug, PartialEq, Eq, Structural)]
pub struct c64 {
    pub re: u64,
    pub im: u64,
}

impl c64 {
    /// `0 + 0j`.
    pub open spec fn zero_value() -> c64 {
        c64 { re: ZERO_BITS, im: ZERO_BITS }
    }

    /// `1 + 0j`.
    pub open spec fn one_value() -> c64 {
        c64 { re: ONE_BITS, im: ZERO_BITS }
    }

    /// `0 + 0j`.
    #[verifier::when_used_as_spec(zero_value)]
    pub fn zero() -> (z: c64)
        ensures
            z == c64::zero_value(),
    {
        c64 { re: ZERO_BITS, im: ZERO_BITS }
    }

    /// `1 + 0j`.
    #[verifier::when_used_as_spec(one_value)]
    pub fn one() -> (z: c64)
        ensures
            z == c64::one_value(),
    {
        c64 { re: ONE_BITS, im: ZERO_BITS }
    }

    /// The number with the given real and imaginary words.
    pub fn new(re: u64, im: u64) -> (z: c64)
        ensures
            z == (c64 { re, im }),
    {
        c64 { re, im }
    }

    /// The real number `re + 0j`.
    pub fn from_real(re: u64) -> (z: c64)
        ensures
            z == (c64 { re, im: ZERO_BITS }),
    {
        c64 { re, im: ZERO_BITS }
    }

    /// The imaginary number `0 + j*im`.
    pub fn imag(im: u64) -> (z: c64)
        ensures
            z == (c64 { re: ZERO_BITS, im }),
    {
        c64 { re: ZERO_BITS, im }
    }

    /// The complex conjugate: the imaginary part changes sign.
    pub fn conj(self) -> (z: c64)
        ensures
            z == (c64 { re: self.re, im: negated(self.im) }),
    {
        c64 { re: self.re, im: self.im ^ SIGN_BIT }
    }

    /// The negation: both parts change sign.
    pub fn neg(self) -> (z: c64)
        ensures
            z == (c64 { re: negated(self.re), im: negated(self.im) }),
    {
        c64 { re: self.re ^ SIGN_BIT, im: self.im ^ SIGN_BIT }
    }

    /// Whether both words are those of `+0.0`.
    pub fn is_zero(self) -> (r: bool)
        ensures
            r == (self == c64::zero()),
    {
        self.re == ZERO_BITS && self.im == ZERO_BITS
    }
}

/// Changing a sign twice gives the word back.
pub proof fn lemma_negated_twice(word: u64)
    ensures
        negated(negated(word)) == word,
{
    assert((word ^ 0x8000_0000_0000_0000u64) ^ 0x8000_0000_0000_0000u64 == word) by (bit_vector);
}

/// Conjugation is an involution.
pub proof fn lemma_conj_involution(z: c64)
    ensures
        (c64 { re: z.re, im: negated(negated(z.im)) }) == z,
{
    lemma_negated_twice(z.im);
}

} // verus!
