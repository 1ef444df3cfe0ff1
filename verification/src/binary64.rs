//! IEEE 754 binary64 numbers held by their 64-bit encodings: classification,
//! the exact value of an encoding, and the ordered comparisons.

use vstd::prelude::*;
use vstd::arithmetic::power2::*;

verus! {

/// The sign bit of an encoding.
pub const SIGN_BIT: u64 = 0x8000_0000_0000_0000;

/// The encoding of positive infinity; every larger sign-free code is a NaN.
pub const INFINITY_BITS: u64 = 0x7FF0_0000_0000_0000;

/// The encoding of the quiet NaN that the arithmetic returns.
pub const NAN_BITS: u64 = 0x7FF8_0000_0000_0000;

/// Two to the power 52: the weight of the implicit leading bit of a
/// significand, and the weight of the exponent field inside an encoding.
pub const HIDDEN_BIT: u64 = 0x0010_0000_0000_0000;

/// The encoding of 1.
pub const ONE_BITS: u64 = 0x3FF0_0000_0000_0000;

/// The encoding of 100.
pub const HUNDRED_BITS: u64 = 0x4059_0000_0000_0000;

/// A binary64 number, held by its encoding. Two values are `==` when their
/// encodings are the same; the numeric comparisons are `lt`, `le`, `gt`,
/// `ge` and `same_number`.
#[derive(Clone, Copy, Debug, PartialEq, Eq, Structural)]
pub struct Binary64 {
    pub bits: u64,
}

/// The number of units in 1. A unit is two to the power -1074, the smallest
/// positive binary64 number, so every finite binary64 number is a whole
/// number of units.
pub open spec fn unit() -> nat {
    pow2(1074)
}

/// Positive zero.
pub open spec fn zero() -> Binary64 {
    Binary64 { bits: 0 }
}

/// The number 1.
pub open spec fn one() -> Binary64 {
    Binary64 { bits: ONE_BITS }
}

/// The number 100.
pub open spec fn hundred() -> Binary64 {
    Binary64 { bits: HUNDRED_BITS }
}

/// The magnitude, in units, that a sign-free code stands for. The code of
/// infinity stands for two to the power 2098 units, the first magnitude past
/// the largest finite one.
pub open spec fn magnitude_of(code: nat) -> nat {
    let e = code / 0x10_0000_0000_0000;
    let f = code % 0x10_0000_0000_0000;
    if e == 0 {
        f
    } else {
        (0x10_0000_0000_0000 + f) * pow2((e - 1) as nat)
    }
}

/// A larger sign-free code stands for a larger magnitude.
pub proof fn lemma_magnitude_increasing(x: nat, y: nat)
    requires
        x < y,
    ensures
        magnitude_of(x) < magnitude_of(y),
{
    let h: nat = 0x10_0000_0000_0000;
    let ex = x / h;
    let fx = x % h;
    let ey = y / h;
    let fy = y % h;
    assert(x == h * ex + fx && y == h * ey + fy);
    if ex == ey {
        if ex != 0 {
            let p = pow2((ex - 1) as nat);
            lemma_pow2_pos((ex - 1) as nat);
            assert((h + fx) * p < (h + fy) * p) by (nonlinear_arith)
                requires
                    fx < fy,
                    p > 0,
            ;
        }
    } else {
        assert(ex < ey);
        let py = pow2((ey - 1) as nat);
        lemma_pow2_pos((ey - 1) as nat);
        assert(h * py <= (h + fy) * py) by (nonlinear_arith)
            requires
                py > 0,
        ;
        if ex == 0 {
            assert(h <= h * py) by (nonlinear_arith)
                requires
                    py > 0,
            ;
        } else {
            let px = pow2((ex - 1) as nat);
            lemma_pow2_pos((ex - 1) as nat);
            lemma_pow2_unfold(ex);
            if ex < ey - 1 {
                lemma_pow2_strictly_increases(ex, (ey - 1) as nat);
            }
            assert(2 * px <= py);
            assert((h + fx) * px < h * py) by (nonlinear_arith)
                requires
                    fx < h,
                    2 * px <= py,
                    px > 0,
            ;
        }
    }
}

/// Sign-free codes are ordered as the magnitudes that they stand for.
pub proof fn lemma_magnitude_order(x: nat, y: nat)
    ensures
        x < y <==> magnitude_of(x) < magnitude_of(y),
        x == y <==> magnitude_of(x) == magnitude_of(y),
{
    if x < y {
        lemma_magnitude_increasing(x, y);
    }
    if y < x {
        lemma_magnitude_increasing(y, x);
    }
}

/// One hundred, in units, is the magnitude of `HUNDRED_BITS`, and one that of
/// `ONE_BITS`.
pub proof fn lemma_named_magnitudes()
    ensures
        magnitude_of(0) == 0,
        magnitude_of(ONE_BITS as nat) == unit(),
        magnitude_of(HUNDRED_BITS as nat) == 100 * unit(),
{
    lemma2_to64();
    lemma2_to64_rest();
    lemma_pow2_adds(52, 1022);
    lemma_pow2_adds(46, 1028);
    let p = pow2(1028);
    let q = pow2(1022);
    assert(pow2(1074) == 0x10_0000_0000_0000 * q);
    assert(pow2(1074) == 0x4000_0000_0000 * p);
    assert(0x19_0000_0000_0000 * p == 100 * (0x4000_0000_0000 * p)) by (nonlinear_arith);
}

impl Binary64 {
    /// The encoding without its sign bit.
    pub open spec fn code(self) -> nat {
        if self.bits >= SIGN_BIT {
            (self.bits - SIGN_BIT) as nat
        } else {
            self.bits as nat
        }
    }

    /// Whether the sign bit is set. It may be set on a zero and on a NaN.
    pub open spec fn is_sign_negative_spec(self) -> bool {
        self.bits >= SIGN_BIT
    }

    pub open spec fn is_nan_spec(self) -> bool {
        self.code() > INFINITY_BITS
    }

    pub open spec fn is_infinite_spec(self) -> bool {
        self.code() == INFINITY_BITS
    }

    /// Neither an infinity nor a NaN.
    pub open spec fn is_finite_spec(self) -> bool {
        self.code() < INFINITY_BITS
    }

    /// The absolute value in units (see `magnitude_of`). It says nothing
    /// useful of a NaN.
    pub open spec fn magnitude(self) -> nat {
        magnitude_of(self.code())
    }

    /// The value in units, with its sign. Both zeros have the value 0, and an
    /// infinity lies past every finite value. It says nothing useful of a NaN.
    pub open spec fn value(self) -> int {
        if self.is_sign_negative_spec() {
            -(self.magnitude() as int)
        } else {
            self.magnitude() as int
        }
    }

    /// The same number with the sign bit cleared.
    pub open spec fn abs_spec(self) -> Binary64 {
        Binary64 { bits: self.code() as u64 }
    }

    /// The same number with the sign bit flipped.
    pub open spec fn neg_spec(self) -> Binary64 {
        Binary64 {
            bits: if self.bits >= SIGN_BIT {
                (self.bits - SIGN_BIT) as u64
            } else {
                (self.bits + SIGN_BIT) as u64
            },
        }
    }

    /// IEEE 754 `<`: false when either side is a NaN.
    pub open spec fn lt_spec(self, other: Binary64) -> bool {
        !self.is_nan_spec() && !other.is_nan_spec() && self.value() < other.value()
    }

    /// IEEE 754 `<=`: false when either side is a NaN.
    pub open spec fn le_spec(self, other: Binary64) -> bool {
        !self.is_nan_spec() && !other.is_nan_spec() && self.value() <= other.value()
    }

    /// IEEE 754 `==`: false when either side is a NaN, true of the two zeros.
    pub open spec fn same_number_spec(self, other: Binary64) -> bool {
        !self.is_nan_spec() && !other.is_nan_spec() && self.value() == other.value()
    }

    pub fn from_bits(bits: u64) -> (r: Binary64)
        ensures
            r.bits == bits,
    {
        Binary64 { bits }
    }

    pub fn to_bits(self) -> (r: u64)
        ensures
            r == self.bits,
    {
        self.bits
    }

    /// Positive zero.
    pub fn zero() -> (r: Binary64)
        ensures
            r == self::zero(),
            r.value() == 0,
            r.is_finite_spec(),
    {
        proof {
            lemma_named_magnitudes();
        }
        Binary64 { bits: 0 }
    }

    /// The number 1.
    pub fn one() -> (r: Binary64)
        ensures
            r == self::one(),
            r.value() == unit(),
            r.value() > 0,
            r.is_finite_spec(),
    {
        proof {
            lemma_named_magnitudes();
            lemma_pow2_pos(1074);
        }
        Binary64 { bits: ONE_BITS }
    }

    /// The number 100.
    pub fn hundred() -> (r: Binary64)
        ensures
            r == self::hundred(),
            r.value() == 100 * unit(),
            r.value() > 0,
            r.is_finite_spec(),
    {
        proof {
            lemma_named_magnitudes();
            lemma_pow2_pos(1074);
        }
        Binary64 { bits: HUNDRED_BITS }
    }

    /// The encoding without its sign bit.
    pub fn code_bits(self) -> (r: u64)
        ensures
            r == self.code(),
            r < SIGN_BIT,
    {
        if self.bits >= SIGN_BIT {
            self.bits - SIGN_BIT
        } else {
            self.bits
        }
    }

    pub fn is_sign_negative(self) -> (r: bool)
        ensures
            r == self.is_sign_negative_spec(),
    {
        self.bits >= SIGN_BIT
    }

    pub fn is_nan(self) -> (r: bool)
        ensures
            r == self.is_nan_spec(),
    {
        self.code_bits() > INFINITY_BITS
    }

    pub fn is_infinite(self) -> (r: bool)
        ensures
            r == self.is_infinite_spec(),
    {
        self.code_bits() == INFINITY_BITS
    }

    pub fn is_finite(self) -> (r: bool)
        ensures
            r == self.is_finite_spec(),
    {
        self.code_bits() < INFINITY_BITS
    }

    /// The same number with the sign bit cleared.
    pub fn abs(self) -> (r: Binary64)
        ensures
            r == self.abs_spec(),
            r.magnitude() == self.magnitude(),
            !r.is_sign_negative_spec(),
            r.is_nan_spec() == self.is_nan_spec(),
    {
        Binary64 { bits: self.code_bits() }
    }

    /// The same number with the sign bit flipped.
    pub fn neg(self) -> (r: Binary64)
        ensures
            r == self.neg_spec(),
            r.code() == self.code(),
            r.is_sign_negative_spec() == !self.is_sign_negative_spec(),
            r.value() == -self.value(),
    {
        if self.bits >= SIGN_BIT {
            Binary64 { bits: self.bits - SIGN_BIT }
        } else {
            Binary64 { bits: self.bits + SIGN_BIT }
        }
    }

    /// IEEE 754 `<`.
    pub fn lt(self, other: Binary64) -> (r: bool)
        ensures
            r == self.lt_spec(other),
    {
        if self.is_nan() || other.is_nan() {
            return false;
        }
        let x = self.code_bits();
        let y = other.code_bits();
        proof {
            lemma_magnitude_order(x as nat, y as nat);
            lemma_magnitude_order(x as nat, 0);
            lemma_magnitude_order(y as nat, 0);
        }
        if self.is_sign_negative() {
            if other.is_sign_negative() {
                y < x
            } else {
                x != 0 || y != 0
            }
        } else {
            if other.is_sign_negative() {
                false
            } else {
                x < y
            }
        }
    }

    /// IEEE 754 `<=`.
    pub fn le(self, other: Binary64) -> (r: bool)
        ensures
            r == self.le_spec(other),
    {
        if self.is_nan() || other.is_nan() {
            return false;
        }
        !other.lt(self)
    }

    /// IEEE 754 `>`.
    pub fn gt(self, other: Binary64) -> (r: bool)
        ensures
            r == other.lt_spec(self),
    {
        other.lt(self)
    }

    /// IEEE 754 `>=`.
    pub fn ge(self, other: Binary64) -> (r: bool)
        ensures
            r == other.le_spec(self),
    {
        other.le(self)
    }

    /// IEEE 754 `==`.
    pub fn same_number(self, other: Binary64) -> (r: bool)
        ensures
            r == self.same_number_spec(other),
    {
        self.le(other) && other.le(self)
    }
}

} // verus!
