//! Numbers of the target machine, held as IEEE-754 binary64 bit patterns.
//!
//! Everything the compiler and the interpreter decide about a number (its
//! sign, whether it is zero, how two numbers compare, which integer it rounds
//! to) is read off the bits with integer operations. Sums, differences,
//! products and quotients are not computed here: the interpreter asks its
//! caller for them.
use vstd::prelude::*;

verus! {

/// The sign bit of a binary64 pattern.
pub const SIGN_BIT: u64 = 0x8000_0000_0000_0000;

/// The pattern of positive infinity: all exponent bits set, no fraction bit.
pub const INFINITY_BITS: u64 = 0x7ff0_0000_0000_0000;

/// The implicit leading bit of a normal number's significand, `2^52`.
pub const HIDDEN_BIT: u64 = 0x0010_0000_0000_0000;

/// The pattern of `1.0`.
pub const ONE_BITS: u64 = 0x3ff0_0000_0000_0000;

/// A binary64 number, kept as its 64 bits.
#[derive(Clone, Copy, Debug, PartialEq, Eq, Hash, Structural)]
pub struct Number {
    pub bits: u64,
}

/// Index of the highest set bit of `m` (0 for `m <= 1`).
pub open spec fn top_bit(m: u64) -> nat
    decreases m,
{
    if m <= 1 {
        0
    } else {
        1 + top_bit(m / 2)
    }
}

/// `2^k` for `k < 64`, as a machine word.
pub open spec fn bit(k: nat) -> u64
    recommends
        k < 64,
{
    1u64 << (k as u64)
}

/// The binary64 pattern of the non-negative integer `m`, rounded to nearest
/// with ties to the even significand.
pub open spec fn magnitude_bits(m: u64) -> u64 {
    if m == 0 {
        0
    } else {
        let k = top_bit(m) as u64;
        let exponent = ((1023 + k) * HIDDEN_BIT) as u64;
        if k <= 52 {
            // exact: the significand is m shifted up to 53 bits
            (exponent + ((m << ((52 - k) as u64)) - HIDDEN_BIT)) as u64
        } else {
            let shift = (k - 52) as u64;
            let kept = m >> shift;
            let rest = m & ((bit(shift as nat) - 1) as u64);
            let half = bit((shift - 1) as nat);
            let up: u64 = if rest > half || (rest == half && kept % 2 == 1) {
                1
            } else {
                0
            };
            (exponent + (kept - HIDDEN_BIT) + up) as u64
        }
    }
}

proof fn lemma_halving(m: u64, k: u64)
    requires
        k < 63,
    ensures
        (m >> k) / 2 == m >> ((k + 1) as u64),
{
    assert(k < 63 ==> (m >> k) / 2 == m >> ((k + 1) as u64)) by (bit_vector);
}

/// The index of the highest set bit of a non-zero word.
fn highest_bit(m: u64) -> (k: u64)
    requires
        m > 0,
    ensures
        k == top_bit(m),
        k < 64,
        m >> k == 1,
{
    let mut k: u64 = 0;
    let mut rest: u64 = m;
    assert(m >> 0 == m) by (bit_vector);
    while rest > 1
        invariant
            k < 64,
            rest >= 1,
            rest == m >> k,
            k == 63 ==> rest <= 1,
            top_bit(m) == k + top_bit(rest),
        decreases rest,
    {
        proof {
            lemma_halving(m, k);
            assert(k + 1 == 63 ==> (m >> ((k + 1) as u64)) <= 1) by (bit_vector);
        }
        rest = rest / 2;
        k = k + 1;
    }
    k
}

impl Number {
    /// The bits without the sign.
    pub open spec fn magnitude(self) -> u64 {
        if self.bits >= SIGN_BIT {
            (self.bits - SIGN_BIT) as u64
        } else {
            self.bits
        }
    }

    /// Whether the sign bit is set.
    pub open spec fn negative(self) -> bool {
        self.bits >= SIGN_BIT
    }

    /// Whether the pattern is a NaN: exponent all ones and a non-zero fraction.
    pub open spec fn nan(self) -> bool {
        self.magnitude() > INFINITY_BITS
    }

    /// Whether the number is `0.0` or `-0.0`.
    pub open spec fn zero(self) -> bool {
        self.magnitude() == 0
    }

    /// Where the number stands among the numbers: patterns of one sign are
    /// ordered as their magnitudes are, negative ones in reverse, and both
    /// zeros stand at 0. Meaningful for every pattern that is not a NaN.
    pub open spec fn rank(self) -> int {
        if self.negative() {
            -(self.magnitude() as int)
        } else {
            self.magnitude() as int
        }
    }

    /// IEEE equality: no NaN equals anything, and the two zeros are equal.
    pub open spec fn equals(self, other: Number) -> bool {
        !self.nan() && !other.nan() && self.rank() == other.rank()
    }

    /// IEEE `<`: false as soon as one side is a NaN.
    pub open spec fn less(self, other: Number) -> bool {
        !self.nan() && !other.nan() && self.rank() < other.rank()
    }

    /// IEEE `<=`: false as soon as one side is a NaN.
    pub open spec fn at_most(self, other: Number) -> bool {
        !self.nan() && !other.nan() && self.rank() <= other.rank()
    }

    /// Equality as a key: every NaN is the same key, and so are the two
    /// zeros; otherwise the numbers must be equal.
    pub open spec fn same(self, other: Number) -> bool {
        if self.nan() {
            other.nan()
        } else {
            self.equals(other)
        }
    }

    /// The biased exponent field.
    pub open spec fn exponent(self) -> u64 {
        self.magnitude() / HIDDEN_BIT
    }

    /// The significand of a normal number: the fraction with the hidden bit.
    pub open spec fn significand(self) -> u64 {
        (self.magnitude() % HIDDEN_BIT + HIDDEN_BIT) as u64
    }

    /// The number as an `i32`, fraction dropped: NaN gives 0, and what lies
    /// beyond the range gives the nearest end of it.
    pub open spec fn truncated(self) -> i32 {
        let e = self.exponent();
        if self.nan() || e < 1023 {
            0
        } else if e >= 1054 {
            if self.negative() {
                i32::MIN
            } else {
                i32::MAX
            }
        } else {
            let whole = self.significand() >> ((1075 - e) as u64);
            if self.negative() {
                (-(whole as int)) as i32
            } else {
                whole as i32
            }
        }
    }

    /// The nearest integer as an `i32`, halves away from zero: NaN gives 0,
    /// and what lies beyond the range gives the nearest end of it.
    pub open spec fn rounded(self) -> i32 {
        let e = self.exponent();
        if self.nan() || e < 1022 {
            0
        } else if e == 1022 {
            if self.negative() {
                -1i32
            } else {
                1i32
            }
        } else if e >= 1054 {
            if self.negative() {
                i32::MIN
            } else {
                i32::MAX
            }
        } else {
            let shift = (1075 - e) as u64;
            let whole = self.significand() >> shift;
            let half = (self.significand() >> ((shift - 1) as u64)) % 2;
            let nearest = whole + half;
            if self.negative() {
                (-(nearest as int)) as i32
            } else if nearest > i32::MAX {
                i32::MAX
            } else {
                nearest as i32
            }
        }
    }

    /// The pattern of the integer `value`, rounded to nearest, ties to even.
    pub open spec fn of_int(value: i64) -> Number {
        if value < 0 {
            Number { bits: (SIGN_BIT + magnitude_bits((-(value as int)) as u64)) as u64 }
        } else {
            Number { bits: magnitude_bits(value as u64) }
        }
    }

    /// The pattern of a position in a program.
    pub open spec fn of_index(index: usize) -> Number {
        Number { bits: magnitude_bits(index as u64) }
    }

    /// The number of a truth value: 1 for true, 0 for false.
    pub open spec fn of_bool(value: bool) -> Number {
        Number {
            bits: if value {
                ONE_BITS
            } else {
                0
            },
        }
    }

    /// The number without its sign.
    pub open spec fn absolute(self) -> Number {
        Number { bits: self.magnitude() }
    }

    /// Wraps a bit pattern.
    pub fn from_bits(bits: u64) -> (r: Number)
        ensures
            r.bits == bits,
    {
        Number { bits }
    }

    /// The bit pattern.
    pub fn to_bits(&self) -> (r: u64)
        ensures
            r == self.bits,
    {
        self.bits
    }

    fn magnitude_of(&self) -> (r: u64)
        ensures
            r == self.magnitude(),
    {
        if self.bits >= SIGN_BIT {
            self.bits - SIGN_BIT
        } else {
            self.bits
        }
    }

    /// Whether the sign bit is set.
    pub fn is_negative(&self) -> (r: bool)
        ensures
            r == self.negative(),
    {
        self.bits >= SIGN_BIT
    }

    /// Whether the number is a NaN.
    pub fn is_nan(&self) -> (r: bool)
        ensures
            r == self.nan(),
    {
        self.magnitude_of() > INFINITY_BITS
    }

    /// Whether the number is zero of either sign.
    pub fn is_zero(&self) -> (r: bool)
        ensures
            r == self.zero(),
    {
        self.magnitude_of() == 0
    }

    /// IEEE `==`.
    pub fn eq_number(&self, other: &Number) -> (r: bool)
        ensures
            r == self.equals(*other),
    {
        if self.is_nan() || other.is_nan() {
            false
        } else if self.is_zero() {
            other.is_zero()
        } else {
            self.bits == other.bits
        }
    }

    /// IEEE `<`.
    pub fn lt_number(&self, other: &Number) -> (r: bool)
        ensures
            r == self.less(*other),
    {
        if self.is_nan() || other.is_nan() {
            false
        } else {
            let a: u64 = self.magnitude_of();
            let b: u64 = other.magnitude_of();
            if self.is_negative() {
                if other.is_negative() {
                    a > b
                } else {
                    a != 0 || b != 0
                }
            } else {
                if other.is_negative() {
                    false
                } else {
                    a < b
                }
            }
        }
    }

    /// IEEE `<=`.
    pub fn le_number(&self, other: &Number) -> (r: bool)
        ensures
            r == self.at_most(*other),
    {
        self.lt_number(other) || self.eq_number(other)
    }

    /// Equality as a key, under which every NaN is one key.
    pub fn same_number(&self, other: &Number) -> (r: bool)
        ensures
            r == self.same(*other),
    {
        if self.is_nan() {
            other.is_nan()
        } else {
            self.eq_number(other)
        }
    }

    /// The number without its sign.
    pub fn abs(&self) -> (r: Number)
        ensures
            r == self.absolute(),
    {
        Number { bits: self.magnitude_of() }
    }

    /// 1 for true, 0 for false.
    pub fn from_bool(value: bool) -> (r: Number)
        ensures
            r == Number::of_bool(value),
    {
        if value {
            Number { bits: ONE_BITS }
        } else {
            Number { bits: 0 }
        }
    }

    fn from_magnitude(m: u64) -> (r: u64)
        ensures
            r == magnitude_bits(m),
            r < SIGN_BIT,
    {
        if m == 0 {
            return 0;
        }
        let k: u64 = highest_bit(m);
        let exponent: u64 = (1023 + k) * HIDDEN_BIT;
        if k <= 52 {
            let shifted: u64 = m << (52 - k);
            assert(k <= 52 && m >> k == 1 ==> 0x0010_0000_0000_0000u64 <= m << ((52 - k) as u64)
                < 0x0020_0000_0000_0000u64) by (bit_vector);
            exponent + (shifted - HIDDEN_BIT)
        } else {
            let shift: u64 = k - 52;
            let kept: u64 = m >> shift;
            assert(52 < k < 64 && m >> k == 1 ==> 0x0010_0000_0000_0000u64 <= m >> ((k - 52) as u64)
                < 0x0020_0000_0000_0000u64) by (bit_vector);
            assert(0 < shift < 12 ==> 1u64 << shift >= 1) by (bit_vector);
            let rest: u64 = m & ((1u64 << shift) - 1);
            let half: u64 = 1u64 << (shift - 1);
            let up: u64 = if rest > half || (rest == half && kept % 2 == 1) {
                1
            } else {
                0
            };
            exponent + (kept - HIDDEN_BIT) + up
        }
    }

    /// The number of an integer, rounded to nearest, ties to even.
    pub fn from_i64(value: i64) -> (r: Number)
        ensures
            r == Number::of_int(value),
    {
        if value < 0 {
            let m: u64 = ((-(value + 1)) as u64) + 1;
            Number { bits: SIGN_BIT + Number::from_magnitude(m) }
        } else {
            Number { bits: Number::from_magnitude(value as u64) }
        }
    }

    /// The number of a position in a program.
    pub fn from_index(index: usize) -> (r: Number)
        ensures
            r == Number::of_index(index),
    {
        Number { bits: Number::from_magnitude(index as u64) }
    }

    /// The number as an `i32` with the fraction dropped.
    pub fn truncate(&self) -> (r: i32)
        ensures
            r == self.truncated(),
    {
        let m: u64 = self.magnitude_of();
        let e: u64 = m / HIDDEN_BIT;
        if m > INFINITY_BITS || e < 1023 {
            0
        } else if e >= 1054 {
            if self.is_negative() {
                i32::MIN
            } else {
                i32::MAX
            }
        } else {
            let significand: u64 = m % HIDDEN_BIT + HIDDEN_BIT;
            let shift: u64 = 1075 - e;
            let whole: u64 = significand >> shift;
            assert(22 <= shift <= 52 && significand < 0x0020_0000_0000_0000u64 ==> significand
                >> shift < 0x8000_0000u64) by (bit_vector);
            if self.is_negative() {
                -(whole as i64) as i32
            } else {
                whole as i32
            }
        }
    }

    /// The nearest integer as an `i32`, halves away from zero.
    pub fn round(&self) -> (r: i32)
        ensures
            r == self.rounded(),
    {
        let m: u64 = self.magnitude_of();
        let e: u64 = m / HIDDEN_BIT;
        if m > INFINITY_BITS || e < 1022 {
            0
        } else if e == 1022 {
            if self.is_negative() {
                -1
            } else {
                1
            }
        } else if e >= 1054 {
            if self.is_negative() {
                i32::MIN
            } else {
                i32::MAX
            }
        } else {
            let significand: u64 = m % HIDDEN_BIT + HIDDEN_BIT;
            let shift: u64 = 1075 - e;
            let whole: u64 = significand >> shift;
            let half: u64 = (significand >> (shift - 1)) % 2;
            assert(22 <= shift <= 52 && significand < 0x0020_0000_0000_0000u64 ==> significand
                >> shift < 0x8000_0000u64) by (bit_vector);
            let nearest: u64 = whole + half;
            if self.is_negative() {
                -(nearest as i64) as i32
            } else if nearest > 0x7fff_ffff {
                i32::MAX
            } else {
                nearest as i32
            }
        }
    }
}

} // verus!
