//! Distances as bit patterns.
//!
//! Every distance this crate handles is a floating-point value that is only
//! ever classified and compared, never computed with. It is therefore
//! carried as the bit pattern of an IEEE 754 binary64 value, and
//! classification and ordering are defined on the pattern. A binary32 value
//! is stood for by a binary64 pattern of the same class and in the same
//! place among the others (`Scalar::from_single`).

use vstd::prelude::*;

verus! {

/// The bit that holds the sign.
pub const SIGN_BIT: u64 = 0x8000_0000_0000_0000;

/// The pattern of positive infinity: every exponent bit set, no fraction bit.
pub const INFINITY_BITS: u64 = 0x7ff0_0000_0000_0000;

/// The pattern of the smallest positive normal value.
pub const MIN_NORMAL_BITS: u64 = 0x0010_0000_0000_0000;

/// The pattern of the quiet not-a-number that marks a value as not yet set.
pub const NAN_BITS: u64 = 0x7ff8_0000_0000_0000;

/// An IEEE 754 binary64 value, given by its bit pattern.
#[derive(Clone, Copy, Debug)]
pub struct Scalar {
    pub bits: u64,
}

impl Scalar {
    /// The pattern without its sign bit: exponent and fraction.
    pub open spec fn magnitude(self) -> int {
        (self.bits % SIGN_BIT) as int
    }

    /// Whether the sign bit is set.
    pub open spec fn negative(self) -> bool {
        self.bits >= SIGN_BIT
    }

    /// Not a number: the exponent is all ones and the fraction is not zero.
    pub open spec fn spec_is_nan(self) -> bool {
        self.magnitude() > INFINITY_BITS
    }

    /// Neither zero, subnormal, infinite nor not-a-number: the exponent is
    /// neither all zeros nor all ones.
    pub open spec fn spec_is_normal(self) -> bool {
        MIN_NORMAL_BITS <= self.magnitude() < INFINITY_BITS
    }

    /// The place of the value on the number line, as an integer that grows
    /// with the value. Both zeros have rank 0. Patterns that are not numbers
    /// get a rank beyond the infinities, so that the rank orders all patterns.
    pub open spec fn rank(self) -> int {
        if self.negative() {
            -self.magnitude()
        } else {
            self.magnitude()
        }
    }

    /// `self < other` as IEEE 754 defines it: false if either is not a number.
    pub open spec fn spec_lt(self, other: Scalar) -> bool {
        !self.spec_is_nan() && !other.spec_is_nan() && self.rank() < other.rank()
    }

    /// `self <= other` as IEEE 754 defines it: false if either is not a number.
    pub open spec fn spec_le(self, other: Scalar) -> bool {
        !self.spec_is_nan() && !other.spec_is_nan() && self.rank() <= other.rank()
    }

    /// `self > other` as IEEE 754 defines it: false if either is not a number.
    pub open spec fn spec_gt(self, other: Scalar) -> bool {
        other.spec_lt(self)
    }

    /// The value with the given bit pattern.
    pub fn from_bits(bits: u64) -> (s: Scalar)
        ensures
            s.bits == bits,
    {
        Scalar { bits }
    }

    /// The bit pattern of the value.
    pub fn to_bits(self) -> (bits: u64)
        ensures
            bits == self.bits,
    {
        self.bits
    }

    /// Positive zero.
    pub fn zero() -> (s: Scalar)
        ensures
            s.bits == 0,
    {
        Scalar { bits: 0 }
    }

    /// The not-a-number that marks a value as not yet set.
    pub fn nan() -> (s: Scalar)
        ensures
            s.bits == NAN_BITS,
            s.spec_is_nan(),
            !s.spec_is_normal(),
    {
        Scalar { bits: NAN_BITS }
    }

    /// Whether the value is not a number.
    #[verifier::when_used_as_spec(spec_is_nan)]
    pub fn is_nan(self) -> (r: bool)
        ensures
            r == self.spec_is_nan(),
    {
        self.bits % SIGN_BIT > INFINITY_BITS
    }

    /// Whether the value is a normal number: neither zero, subnormal,
    /// infinite nor not a number.
    #[verifier::when_used_as_spec(spec_is_normal)]
    pub fn is_normal(self) -> (r: bool)
        ensures
            r == self.spec_is_normal(),
    {
        let m: u64 = self.bits % SIGN_BIT;
        MIN_NORMAL_BITS <= m && m < INFINITY_BITS
    }

    /// The rank, moved into the unsigned range: a key by which all patterns
    /// can be sorted, numbers in the order of their values.
    pub fn key(self) -> (k: u64)
        ensures
            k == SIGN_BIT + self.rank(),
    {
        let m: u64 = self.bits % SIGN_BIT;
        if self.bits >= SIGN_BIT {
            SIGN_BIT - m
        } else {
            SIGN_BIT + m
        }
    }

    /// Whether `self < other`; false if either is not a number.
    #[verifier::when_used_as_spec(spec_lt)]
    pub fn lt(self, other: Scalar) -> (r: bool)
        ensures
            r == self.spec_lt(other),
    {
        !self.is_nan() && !other.is_nan() && self.key() < other.key()
    }

    /// Whether `self <= other`; false if either is not a number.
    #[verifier::when_used_as_spec(spec_le)]
    pub fn le(self, other: Scalar) -> (r: bool)
        ensures
            r == self.spec_le(other),
    {
        !self.is_nan() && !other.is_nan() && self.key() <= other.key()
    }

    /// Whether `self > other`; false if either is not a number.
    #[verifier::when_used_as_spec(spec_gt)]
    pub fn gt(self, other: Scalar) -> (r: bool)
        ensures
            r == self.spec_gt(other),
    {
        other.lt(self)
    }
}

/// `<=` is transitive.
pub proof fn lemma_le_transitive(a: Scalar, b: Scalar, c: Scalar)
    requires
        a.le(b),
        b.le(c),
    ensures
        a.le(c),
{
}

/// Of two numbers, one is at most the other, and `<` is `<=` without the
/// case of equal rank.
pub proof fn lemma_le_total(a: Scalar, b: Scalar)
    requires
        !a.is_nan(),
        !b.is_nan(),
    ensures
        a.le(b) || b.le(a),
        a.lt(b) <==> a.le(b) && !b.le(a),
        a.le(a),
{
}

/// What is not a number compares with nothing, itself included.
pub proof fn lemma_nan_compares_with_nothing(a: Scalar, b: Scalar)
    requires
        a.is_nan(),
    ensures
        !a.lt(b) && !a.le(b) && !a.gt(b),
        !b.lt(a) && !b.le(a) && !b.gt(a),
        !a.is_normal(),
{
}

/// The bit that holds the sign of a binary32 value.
pub const SINGLE_SIGN_BIT: u32 = 0x8000_0000;

/// The binary32 pattern of positive infinity.
pub const SINGLE_INFINITY_BITS: u32 = 0x7f80_0000;

/// The binary32 pattern of the smallest positive normal value.
pub const SINGLE_MIN_NORMAL_BITS: u32 = 0x0080_0000;

/// By how much a binary32 fraction is scaled to become a binary64 fraction:
/// two to the power of the 29 bits that the latter has more.
pub const FRACTION_SCALE: u64 = 0x2000_0000;

/// What the binary64 exponent of a normal value has more than its binary32
/// exponent, in the place of the exponent.
pub const EXPONENT_SHIFT: u64 = 0x3800_0000_0000_0000;

/// A binary32 pattern without its sign bit.
pub open spec fn single_magnitude(bits: u32) -> int {
    (bits % SINGLE_SIGN_BIT) as int
}

/// Whether the sign bit of a binary32 pattern is set.
pub open spec fn single_negative(bits: u32) -> bool {
    bits >= SINGLE_SIGN_BIT
}

/// Whether a binary32 pattern is not a number.
pub open spec fn single_is_nan(bits: u32) -> bool {
    single_magnitude(bits) > SINGLE_INFINITY_BITS
}

/// Whether a binary32 pattern is a normal number.
pub open spec fn single_is_normal(bits: u32) -> bool {
    SINGLE_MIN_NORMAL_BITS <= single_magnitude(bits) < SINGLE_INFINITY_BITS
}

/// The place of a binary32 pattern on the number line.
pub open spec fn single_rank(bits: u32) -> int {
    if single_negative(bits) {
        -single_magnitude(bits)
    } else {
        single_magnitude(bits)
    }
}

/// The binary64 magnitude that stands for a binary32 magnitude. That of a
/// normal number or an infinity is that of the same number. What is not a
/// number keeps its fraction, scaled. A subnormal number, or zero, becomes
/// the subnormal number with the same fraction, which is a smaller number
/// but has the same place among the others.
pub open spec fn widened(magnitude: int) -> int {
    if magnitude < SINGLE_MIN_NORMAL_BITS {
        magnitude
    } else if magnitude < SINGLE_INFINITY_BITS {
        magnitude * FRACTION_SCALE + EXPONENT_SHIFT
    } else {
        INFINITY_BITS + (magnitude - SINGLE_INFINITY_BITS) * FRACTION_SCALE
    }
}

/// The value that stands for a binary32 pattern.
pub open spec fn single(bits: u32) -> Scalar {
    Scalar {
        bits: if single_negative(bits) {
            (SIGN_BIT + widened(single_magnitude(bits))) as u64
        } else {
            widened(single_magnitude(bits)) as u64
        },
    }
}

/// A binary32 pattern and the value that stands for it are of one class.
pub proof fn lemma_single_keeps_class(bits: u32)
    ensures
        single(bits).magnitude() == widened(single_magnitude(bits)),
        single(bits).negative() == single_negative(bits),
        single(bits).is_nan() == single_is_nan(bits),
        single(bits).is_normal() == single_is_normal(bits),
        single(bits).magnitude() == 0 <==> single_magnitude(bits) == 0,
        single(bits).magnitude() == INFINITY_BITS <==> single_magnitude(bits)
            == SINGLE_INFINITY_BITS,
{
}

/// Two binary32 patterns and the values that stand for them are in the same
/// order.
pub proof fn lemma_single_keeps_order(a: u32, b: u32)
    ensures
        single(a).rank() < single(b).rank() <==> single_rank(a) < single_rank(b),
        single(a).rank() == single(b).rank() <==> single_rank(a) == single_rank(b),
        single(a).lt(single(b)) <==> !single_is_nan(a) && !single_is_nan(b) && single_rank(a)
            < single_rank(b),
        single(a).le(single(b)) <==> !single_is_nan(a) && !single_is_nan(b) && single_rank(a)
            <= single_rank(b),
{
    lemma_single_keeps_class(a);
    lemma_single_keeps_class(b);
}

/// Different binary32 patterns have different values standing for them.
pub proof fn lemma_single_is_one_to_one(a: u32, b: u32)
    requires
        single(a) == single(b),
    ensures
        a == b,
{
    lemma_single_keeps_class(a);
    lemma_single_keeps_class(b);
}

impl Scalar {
    /// The value that stands for the binary32 value with the given pattern.
    /// It is of the same class, and compares with other such values as the
    /// binary32 values compare.
    pub fn from_single(bits: u32) -> (s: Scalar)
        ensures
            s == single(bits),
    {
        let magnitude: u64 = (bits % SINGLE_SIGN_BIT) as u64;
        let wide: u64 = if magnitude < SINGLE_MIN_NORMAL_BITS as u64 {
            magnitude
        } else if magnitude < SINGLE_INFINITY_BITS as u64 {
            magnitude * FRACTION_SCALE + EXPONENT_SHIFT
        } else {
            INFINITY_BITS + (magnitude - SINGLE_INFINITY_BITS as u64) * FRACTION_SCALE
        };
        if bits >= SINGLE_SIGN_BIT {
            Scalar { bits: SIGN_BIT + wide }
        } else {
            Scalar { bits: wide }
        }
    }

    /// The pattern of the binary32 value that this value stands for, if it
    /// stands for one.
    pub fn to_single(self) -> (found: Option<u32>)
        ensures
            match found {
                Some(bits) => single(bits) == self,
                None => forall|bits: u32| single(bits) != self,
            },
    {
        let wide: u64 = self.bits % SIGN_BIT;
        let magnitude: u64 = if wide < SINGLE_MIN_NORMAL_BITS as u64 {
            wide
        } else if wide < INFINITY_BITS {
            if wide < EXPONENT_SHIFT {
                0
            } else {
                (wide - EXPONENT_SHIFT) / FRACTION_SCALE
            }
        } else {
            SINGLE_INFINITY_BITS as u64 + (wide - INFINITY_BITS) / FRACTION_SCALE
        };
        if magnitude >= SINGLE_SIGN_BIT as u64 {
            return None;
        }
        let narrow: u32 = if self.bits >= SIGN_BIT {
            SINGLE_SIGN_BIT + magnitude as u32
        } else {
            magnitude as u32
        };
        let back = Scalar::from_single(narrow);
        if back.bits == self.bits {
            Some(narrow)
        } else {
            None
        }
    }
}

} // verus!
