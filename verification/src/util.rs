use vstd::prelude::*;

verus! {

/// The sign bit of a binary64 pattern.
pub const SIGN_BIT: u64 = 0x8000_0000_0000_0000;

/// The pattern of positive infinity: every exponent bit set, no fraction bit.
pub const INFINITY_BITS: u64 = 0x7ff0_0000_0000_0000;

/// A number of the language: an IEEE-754 binary64 value, held as its 64-bit
/// pattern. Sums, products and quotients, and the conversions from and to
/// decimal text, are the host's; order, equality and negation are read off
/// the pattern here.
#[derive(Clone, Copy, Debug)]
pub struct Number {
    pub bits: u64,
}

impl Number {
    /// The pattern without its sign bit.
    pub open spec fn magnitude(self) -> u64 {
        if self.bits >= SIGN_BIT {
            (self.bits - SIGN_BIT) as u64
        } else {
            self.bits
        }
    }

    /// The sign bit is set.
    pub open spec fn is_negative(self) -> bool {
        self.bits >= SIGN_BIT
    }

    /// Not-a-number: the exponent is all ones and the fraction is not zero.
    pub open spec fn is_nan(self) -> bool {
        self.magnitude() > INFINITY_BITS
    }

    /// The place of a number on the real line, as far as order goes: binary64
    /// is sign and magnitude, and among patterns of one sign the larger
    /// magnitude is the larger absolute value. Both zeros have rank 0.
    pub open spec fn rank(self) -> int {
        if self.is_negative() {
            -(self.magnitude() as int)
        } else {
            self.magnitude() as int
        }
    }

    /// IEEE equality: never true of a NaN, true of the two zeros.
    pub open spec fn ieee_eq(self, other: Number) -> bool {
        !self.is_nan() && !other.is_nan() && self.rank() == other.rank()
    }

    /// IEEE `<`: false whenever a NaN is involved.
    pub open spec fn ieee_lt(self, other: Number) -> bool {
        !self.is_nan() && !other.is_nan() && self.rank() < other.rank()
    }

    /// IEEE `<=`: false whenever a NaN is involved.
    pub open spec fn ieee_le(self, other: Number) -> bool {
        !self.is_nan() && !other.is_nan() && self.rank() <= other.rank()
    }

    /// The pattern with its sign bit flipped.
    pub open spec fn negated(self) -> Number {
        if self.bits >= SIGN_BIT {
            Number { bits: (self.bits - SIGN_BIT) as u64 }
        } else {
            Number { bits: (self.bits + SIGN_BIT) as u64 }
        }
    }

    /// The number with the pattern `bits`.
    pub fn from_bits(bits: u64) -> (r: Number)
        ensures
            r.bits == bits,
    {
        Number { bits }
    }

    /// The pattern of the number.
    pub fn to_bits(&self) -> (r: u64)
        ensures
            r == self.bits,
    {
        self.bits
    }

    fn abs_bits(&self) -> (r: u64)
        ensures
            r == self.magnitude(),
    {
        if self.bits >= SIGN_BIT {
            self.bits - SIGN_BIT
        } else {
            self.bits
        }
    }

    /// Whether the number is not a number.
    pub fn nan(&self) -> (r: bool)
        ensures
            r == self.is_nan(),
    {
        self.abs_bits() > INFINITY_BITS
    }

    /// IEEE equality.
    pub fn eq(&self, other: &Number) -> (r: bool)
        ensures
            r == self.ieee_eq(*other),
    {
        if self.nan() || other.nan() {
            return false;
        }
        let a: u64 = self.abs_bits();
        let b: u64 = other.abs_bits();
        if a == 0 && b == 0 {
            true
        } else {
            self.bits == other.bits
        }
    }

    /// IEEE `<`.
    pub fn lt(&self, other: &Number) -> (r: bool)
        ensures
            r == self.ieee_lt(*other),
    {
        if self.nan() || other.nan() {
            return false;
        }
        let a: u64 = self.abs_bits();
        let b: u64 = other.abs_bits();
        if self.bits >= SIGN_BIT {
            if other.bits >= SIGN_BIT {
                a > b
            } else {
                !(a == 0 && b == 0)
            }
        } else {
            if other.bits >= SIGN_BIT {
                false
            } else {
                a < b
            }
        }
    }

    /// IEEE `<=`.
    pub fn le(&self, other: &Number) -> (r: bool)
        ensures
            r == self.ieee_le(*other),
    {
        self.lt(other) || self.eq(other)
    }

    /// The number with its sign flipped.
    pub fn neg(&self) -> (r: Number)
        ensures
            r == self.negated(),
    {
        if self.bits >= SIGN_BIT {
            Number { bits: self.bits - SIGN_BIT }
        } else {
            Number { bits: self.bits + SIGN_BIT }
        }
    }
}

/// Equality of numbers holds of every number with itself, but for NaN.
pub proof fn lemma_number_eq_reflexive(a: Number)
    ensures
        a.ieee_eq(a) <==> !a.is_nan(),
{
}

/// Of two numbers that are no NaN, exactly one of `<`, `==`, `>` holds.
pub proof fn lemma_number_trichotomy(a: Number, b: Number)
    requires
        !a.is_nan(),
        !b.is_nan(),
    ensures
        a.ieee_lt(b) || a.ieee_eq(b) || b.ieee_lt(a),
        !(a.ieee_lt(b) && a.ieee_eq(b)),
        !(a.ieee_lt(b) && b.ieee_lt(a)),
        !(a.ieee_eq(b) && b.ieee_lt(a)),
{
}

/// Negating twice gives the number back, and negation mirrors the order.
pub proof fn lemma_negation(a: Number, b: Number)
    ensures
        a.negated().negated() == a,
        a.negated().is_nan() == a.is_nan(),
        a.ieee_lt(b) == b.negated().ieee_lt(a.negated()),
{
}

} // verus!
