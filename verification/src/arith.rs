//! Addition, subtraction, multiplication, division and integer powers of
//! binary64 numbers, each result rounded once to the nearest number, ties to
//! the even significand.

use vstd::prelude::*;
use vstd::arithmetic::power2::*;
use crate::binary64::{
    one,
    Binary64,
    magnitude_of,
    unit,
    lemma_magnitude_order,
    lemma_named_magnitudes,
    HIDDEN_BIT,
    INFINITY_BITS,
    NAN_BITS,
    ONE_BITS,
    SIGN_BIT,
};
use crate::rounding::{
    rounded,
    lemma_pow2_52_53,
    lemma_pow2_sum,
    lemma_pow2_monotone,
    lemma_div_mod_unique,
    lemma_rounded_zero,
    lemma_round_half_even_scaled,
};
use crate::packing::{bit_length, pow2_u128, round_pack, with_sign, lemma_exact_steps, lemma_pow2_127};

verus! {

/// The NaN that the arithmetic returns.
pub open spec fn quiet_nan() -> Binary64 {
    Binary64 { bits: NAN_BITS }
}

pub open spec fn signed_infinity(negative: bool) -> Binary64 {
    Binary64 {
        bits: if negative {
            (INFINITY_BITS + SIGN_BIT) as u64
        } else {
            INFINITY_BITS
        },
    }
}

pub open spec fn signed_zero(negative: bool) -> Binary64 {
    Binary64 {
        bits: if negative {
            SIGN_BIT
        } else {
            0
        },
    }
}

/// The significand and the spacing exponent of a finite sign-free code: the
/// magnitude is the first times two to the power of the second.
pub(crate) fn split(code: u64) -> (r: (u64, u32))
    requires
        code < INFINITY_BITS,
    ensures
        magnitude_of(code as nat) == r.0 * pow2(r.1 as nat),
        r.0 < 0x20_0000_0000_0000,
        r.1 <= 2045,
        r.1 > 0 ==> r.0 >= 0x10_0000_0000_0000,
        (r.0 == 0) == (code == 0),
        r.1 == if code / HIDDEN_BIT == 0 {
            0
        } else {
            code / HIDDEN_BIT - 1
        },
{
    let e: u64 = code / HIDDEN_BIT;
    let f: u64 = code % HIDDEN_BIT;
    proof {
        lemma_pow2_52_53();
    }
    if e == 0 {
        assert(f * pow2(0) == f) by (nonlinear_arith)
            requires
                pow2(0) == 1,
        ;
        (f, 0)
    } else {
        (HIDDEN_BIT + f, (e - 1) as u32)
    }
}

impl Binary64 {
    /// The product, rounded. Infinity times zero is a NaN.
    pub open spec fn mul_spec(self, rhs: Binary64) -> Binary64 {
        let negative = self.is_sign_negative_spec() != rhs.is_sign_negative_spec();
        if self.is_nan_spec() || rhs.is_nan_spec() {
            quiet_nan()
        } else if self.is_infinite_spec() || rhs.is_infinite_spec() {
            if self.code() == 0 || rhs.code() == 0 {
                quiet_nan()
            } else {
                signed_infinity(negative)
            }
        } else {
            rounded(negative, self.magnitude() * rhs.magnitude(), unit())
        }
    }

    /// The quotient, rounded. Zero by zero and infinity by infinity are NaNs;
    /// any other number by zero is an infinity.
    pub open spec fn div_spec(self, rhs: Binary64) -> Binary64 {
        let negative = self.is_sign_negative_spec() != rhs.is_sign_negative_spec();
        if self.is_nan_spec() || rhs.is_nan_spec() {
            quiet_nan()
        } else if self.is_infinite_spec() {
            if rhs.is_infinite_spec() {
                quiet_nan()
            } else {
                signed_infinity(negative)
            }
        } else if rhs.is_infinite_spec() {
            signed_zero(negative)
        } else if rhs.code() == 0 {
            if self.code() == 0 {
                quiet_nan()
            } else {
                signed_infinity(negative)
            }
        } else {
            rounded(negative, self.magnitude() * unit(), rhs.magnitude())
        }
    }

    /// The sum, rounded. Infinities of opposite sign add to a NaN. A sum of
    /// exactly zero is positive zero, unless both terms are negative.
    pub open spec fn add_spec(self, rhs: Binary64) -> Binary64 {
        if self.is_nan_spec() || rhs.is_nan_spec() {
            quiet_nan()
        } else if self.is_infinite_spec() {
            if rhs.is_infinite_spec() && self.is_sign_negative_spec()
                != rhs.is_sign_negative_spec() {
                quiet_nan()
            } else {
                self
            }
        } else if rhs.is_infinite_spec() {
            rhs
        } else {
            let sum = self.value() + rhs.value();
            if sum == 0 {
                signed_zero(self.is_sign_negative_spec() && rhs.is_sign_negative_spec())
            } else if sum < 0 {
                rounded(true, (-sum) as nat, 1)
            } else {
                rounded(false, sum as nat, 1)
            }
        }
    }

    /// The difference, rounded: the sum with the second term negated.
    pub open spec fn sub_spec(self, rhs: Binary64) -> Binary64 {
        self.add_spec(rhs.neg_spec())
    }

    /// The binary64 number equal to a whole number of at most 53 bits.
    pub open spec fn from_int_spec(v: int) -> Binary64 {
        if v < 0 {
            rounded(true, ((-v) * unit()) as nat, 1)
        } else {
            rounded(false, (v * unit()) as nat, 1)
        }
    }

    /// One round of binary exponentiation and those that follow: `acc` takes
    /// up the current square `base` when the lowest bit of `e` is set, and
    /// the square is squared while bits of `e` remain.
    pub open spec fn powi_rounds(base: Binary64, acc: Binary64, e: nat) -> Binary64
        decreases e,
    {
        let next = if e % 2 == 1 {
            acc.mul_spec(base)
        } else {
            acc
        };
        if e / 2 == 0 {
            next
        } else {
            Self::powi_rounds(base.mul_spec(base), next, e / 2)
        }
    }

    /// The power with a whole exponent, by binary exponentiation from the
    /// lowest bit of the exponent upwards, every product rounded; for a
    /// negative exponent, one divided by the power with the exponent negated.
    pub open spec fn powi_spec(self, e: int) -> Binary64 {
        if e < 0 {
            one().div_spec(Self::powi_rounds(self, one(), (-e) as nat))
        } else {
            Self::powi_rounds(self, one(), e as nat)
        }
    }

    /// Multiplication.
    pub fn mul(self, rhs: Binary64) -> (r: Binary64)
        ensures
            r == self.mul_spec(rhs),
    {
        let negative: bool = self.is_sign_negative() != rhs.is_sign_negative();
        if self.is_nan() || rhs.is_nan() {
            return Binary64 { bits: NAN_BITS };
        }
        let ca: u64 = self.code_bits();
        let cb: u64 = rhs.code_bits();
        if ca == INFINITY_BITS || cb == INFINITY_BITS {
            if ca == 0 || cb == 0 {
                return Binary64 { bits: NAN_BITS };
            }
            return with_sign(negative, INFINITY_BITS);
        }
        let (ma, ka) = split(ca);
        let (mb, kb) = split(cb);
        proof {
            lemma_pow2_127();
            assert((ma as int) * (mb as int) < 0x400_0000_0000_0000_0000_0000_0000) by (nonlinear_arith)
                requires
                    0 <= ma < 0x20_0000_0000_0000,
                    0 <= mb < 0x20_0000_0000_0000,
            ;
        }
        let product: u128 = (ma as u128) * (mb as u128);
        let x: i32 = ka as i32 + kb as i32 - 1074;
        proof {
            let up = (ka + kb) as nat;
            lemma_pow2_sum(ka as nat, kb as nat);
            lemma_exact_steps(product as nat, up, 1074);
            assert(self.magnitude() * rhs.magnitude() == product * pow2(up)) by (nonlinear_arith)
                requires
                    self.magnitude() == ma * pow2(ka as nat),
                    rhs.magnitude() == mb * pow2(kb as nat),
                    product == ma * mb,
                    pow2(ka as nat) * pow2(kb as nat) == pow2(up),
            ;
        }
        round_pack(
            negative,
            product,
            x,
            false,
            Ghost(self.magnitude() * rhs.magnitude()),
            Ghost(unit()),
        )
    }

    /// Division.
    pub fn div(self, rhs: Binary64) -> (r: Binary64)
        ensures
            r == self.div_spec(rhs),
    {
        let negative: bool = self.is_sign_negative() != rhs.is_sign_negative();
        if self.is_nan() || rhs.is_nan() {
            return Binary64 { bits: NAN_BITS };
        }
        let ca: u64 = self.code_bits();
        let cb: u64 = rhs.code_bits();
        if ca == INFINITY_BITS {
            if cb == INFINITY_BITS {
                return Binary64 { bits: NAN_BITS };
            }
            return with_sign(negative, INFINITY_BITS);
        }
        if cb == INFINITY_BITS {
            return with_sign(negative, 0);
        }
        if cb == 0 {
            if ca == 0 {
                return Binary64 { bits: NAN_BITS };
            }
            return with_sign(negative, INFINITY_BITS);
        }
        let (ma, ka) = split(ca);
        let (mb, kb) = split(cb);
        if ma == 0 {
            proof {
                lemma_named_magnitudes();
                lemma_magnitude_order(cb as nat, 0);
                lemma_rounded_zero(rhs.magnitude());
                assert(self.magnitude() * unit() == 0) by (nonlinear_arith)
                    requires
                        self.magnitude() == 0,
                ;
            }
            return with_sign(negative, 0);
        }
        proof {
            lemma_pow2_52_53();
            lemma_pow2_127();
        }
        let len: u32 = bit_length(ma as u128);
        proof {
            if len > 53 {
                lemma_pow2_monotone(53, (len - 1) as nat);
            }
            assert(1 <= len <= 53);
        }
        let lift: u32 = 53 - len + 74;
        let scale: u128 = pow2_u128(lift);
        proof {
            lemma_pow2_sum(len as nat, lift as nat);
            lemma_pow2_sum((len - 1) as nat, lift as nat);
            assert(len + lift == 127);
            assert((ma as int) * (scale as int) < pow2(127)) by (nonlinear_arith)
                requires
                    ma < pow2(len as nat),
                    scale > 0,
                    pow2(len as nat) * scale == pow2(127),
            ;
            assert((ma as int) * (scale as int) >= pow2(126)) by (nonlinear_arith)
                requires
                    ma >= pow2((len - 1) as nat),
                    scale > 0,
                    pow2((len - 1) as nat) * scale == pow2(126),
            ;
        }
        let num: u128 = (ma as u128) * scale;
        let quotient: u128 = num / (mb as u128);
        let sticky: bool = num % (mb as u128) != 0;
        let x: i32 = ka as i32 + 1074 - lift as i32 - kb as i32;
        proof {
            let n = self.magnitude() * unit();
            let d = rhs.magnitude();
            let pb = pow2(kb as nat);
            lemma_pow2_pos(kb as nat);
            lemma_magnitude_order(cb as nat, 0);
            lemma_named_magnitudes();
            assert(d > 0);
            // The quotient keeps at least 73 bits.
            lemma_pow2_sum(53, 73);
            crate::rounding::lemma_div_bounds(num as nat, mb as nat, pow2(73));
            assert(pow2(73) * mb <= num) by (nonlinear_arith)
                requires
                    mb < pow2(53),
                    pow2(53) * pow2(73) == pow2(126),
                    num >= pow2(126),
                    pow2(73) > 0,
            ;
            lemma_pow2_monotone(54, 73);
            assert(quotient >= 0x40_0000_0000_0000);
            if x >= 0 {
                let c = pow2((kb + x) as nat);
                lemma_pow2_sum(kb as nat, x as nat);
                lemma_pow2_sum(lift as nat, (kb + x) as nat);
                lemma_pow2_sum(ka as nat, 1074);
                assert(lift + (kb + x) == ka + 1074);
                assert(n == num * c) by (nonlinear_arith)
                    requires
                        n == (ma * pow2(ka as nat)) * pow2(1074),
                        num == ma * scale,
                        scale * c == pow2(ka as nat) * pow2(1074),
                ;
                assert(d * pow2(x as nat) == mb * c) by (nonlinear_arith)
                    requires
                        d == mb * pb,
                        pb * pow2(x as nat) == c,
                ;
                lemma_pow2_pos((kb + x) as nat);
                lemma_round_half_even_scaled(num as nat, mb as nat, c);
                let rem: nat = (num as nat) % (mb as nat);
                assert((rem * c != 0) == (rem != 0)) by (nonlinear_arith)
                    requires
                        c > 0,
                ;
            } else {
                let a = (-x) as nat;
                lemma_pow2_sum(lift as nat, kb as nat);
                lemma_pow2_sum(ka as nat, 1074);
                lemma_pow2_sum((ka + 1074) as nat, a);
                assert(lift + kb == ka + 1074 + a);
                assert(n * pow2(a) == num * pb) by (nonlinear_arith)
                    requires
                        n == (ma * pow2(ka as nat)) * pow2(1074),
                        num == ma * scale,
                        scale * pb == (pow2(ka as nat) * pow2(1074)) * pow2(a),
                ;
                lemma_round_half_even_scaled(num as nat, mb as nat, pb);
                let rem: nat = (num as nat) % (mb as nat);
                assert((rem * pb != 0) == (rem != 0)) by (nonlinear_arith)
                    requires
                        pb > 0,
                ;
            }
        }
        round_pack(
            negative,
            quotient,
            x,
            sticky,
            Ghost(self.magnitude() * unit()),
            Ghost(rhs.magnitude()),
        )
    }

    /// Addition.
    pub fn add(self, rhs: Binary64) -> (r: Binary64)
        ensures
            r == self.add_spec(rhs),
    {
        if self.is_nan() || rhs.is_nan() {
            return Binary64 { bits: NAN_BITS };
        }
        let ca: u64 = self.code_bits();
        let cb: u64 = rhs.code_bits();
        let na: bool = self.is_sign_negative();
        let nb: bool = rhs.is_sign_negative();
        if ca == INFINITY_BITS {
            if cb == INFINITY_BITS && na != nb {
                return Binary64 { bits: NAN_BITS };
            }
            return self;
        }
        if cb == INFINITY_BITS {
            return rhs;
        }
        let same: bool = na == nb;
        let c_hi: u64 = if ca >= cb {
            ca
        } else {
            cb
        };
        let c_lo: u64 = if ca >= cb {
            cb
        } else {
            ca
        };
        let n_hi: bool = if ca >= cb {
            na
        } else {
            nb
        };
        let (m_hi, k_hi) = split(c_hi);
        let (m_lo, k_lo) = split(c_lo);
        let ghost mag_hi = magnitude_of(c_hi as nat);
        let ghost mag_lo = magnitude_of(c_lo as nat);
        let ghost sum = self.value() + rhs.value();
        let ghost total_units: nat = if same {
            mag_hi + mag_lo
        } else {
            (mag_hi - mag_lo) as nat
        };
        proof {
            lemma_pow2_52_53();
            lemma_pow2_127();
            lemma_named_magnitudes();
            lemma_magnitude_order(c_lo as nat, c_hi as nat);
            lemma_magnitude_order(c_lo as nat, 0);
            lemma_magnitude_order(c_hi as nat, 0);
            assert(mag_lo <= mag_hi);
            assert(sum == 0 <==> total_units == 0);
            assert(sum < 0 ==> n_hi && total_units == -sum);
            assert(sum > 0 ==> !n_hi && total_units == sum);
        }
        if m_lo == 0 {
            if m_hi == 0 {
                return with_sign(na && nb, 0);
            }
            proof {
                lemma_exact_steps(m_hi as nat, k_hi as nat, 0);
            }
            return round_pack(n_hi, m_hi as u128, k_hi as i32, false, Ghost(total_units), Ghost(1));
        }
        let delta: u32 = k_hi - k_lo;
        if delta > 60 {
            let sig: u128 = if same {
                (m_hi as u128) * 8
            } else {
                (m_hi as u128) * 8 - 1
            };
            let x: i32 = k_hi as i32 - 3;
            proof {
                let px = pow2(x as nat);
                let plo = pow2(k_lo as nat);
                lemma_pow2_sum(3, x as nat);
                lemma_pow2_sum(53, k_lo as nat);
                lemma_pow2_monotone((53 + k_lo) as nat, x as nat);
                lemma2_to64();
                assert(mag_hi == (8 * m_hi) * px) by (nonlinear_arith)
                    requires
                        mag_hi == m_hi * pow2(k_hi as nat),
                        8 * px == pow2(k_hi as nat),
                ;
                assert(mag_lo < px) by (nonlinear_arith)
                    requires
                        mag_lo == m_lo * plo,
                        m_lo < pow2(53),
                        pow2(53) * plo <= px,
                        plo > 0,
                ;
                assert(mag_lo > 0);
                if same {
                    lemma_div_mod_unique(total_units, px, sig as nat, mag_lo);
                } else {
                    assert(total_units == sig * px + (px - mag_lo)) by (nonlinear_arith)
                        requires
                            total_units == mag_hi - mag_lo,
                            mag_hi == (8 * m_hi) * px,
                            sig == 8 * m_hi - 1,
                    ;
                    lemma_div_mod_unique(total_units, px, sig as nat, (px - mag_lo) as nat);
                }
            }
            return round_pack(n_hi, sig, x, true, Ghost(total_units), Ghost(1));
        }
        let shift: u128 = pow2_u128(delta);
        proof {
            lemma_pow2_monotone(delta as nat, 60);
            lemma2_to64_rest();
            assert((m_hi as int) * (shift as int) < 0x2_0000_0000_0000_0000_0000_0000_0000)
                by (nonlinear_arith)
                requires
                    0 <= m_hi < 0x20_0000_0000_0000,
                    0 < shift <= 0x1000_0000_0000_0000,
            ;
        }
        let lifted: u128 = (m_hi as u128) * shift;
        proof {
            let plo = pow2(k_lo as nat);
            lemma_pow2_sum(delta as nat, k_lo as nat);
            assert(mag_hi == lifted * plo) by (nonlinear_arith)
                requires
                    mag_hi == m_hi * pow2(k_hi as nat),
                    lifted == m_hi * shift,
                    shift * plo == pow2(k_hi as nat),
            ;
            assert(lifted >= m_lo) by (nonlinear_arith)
                requires
                    lifted * plo >= m_lo * plo,
                    plo > 0,
            ;
        }
        let total: u128 = if same {
            lifted + m_lo as u128
        } else {
            lifted - m_lo as u128
        };
        proof {
            let plo = pow2(k_lo as nat);
            assert(total_units == total * plo) by (nonlinear_arith)
                requires
                    mag_hi == lifted * plo,
                    mag_lo == m_lo * plo,
                    same ==> total_units == mag_hi + mag_lo && total == lifted + m_lo,
                    !same ==> total_units == mag_hi - mag_lo && total == lifted - m_lo,
            ;
            lemma_exact_steps(total as nat, k_lo as nat, 0);
            assert((total == 0) == (total_units == 0)) by (nonlinear_arith)
                requires
                    total_units == total * plo,
                    plo > 0,
            ;
        }
        if total == 0 {
            return with_sign(na && nb, 0);
        }
        round_pack(n_hi, total, k_lo as i32, false, Ghost(total_units), Ghost(1))
    }

    /// Subtraction.
    pub fn sub(self, rhs: Binary64) -> (r: Binary64)
        ensures
            r == self.sub_spec(rhs),
    {
        self.add(rhs.neg())
    }

    /// The binary64 number equal to `v`.
    pub fn from_i32(v: i32) -> (r: Binary64)
        ensures
            r == Self::from_int_spec(v as int),
            r.is_finite_spec(),
            r.value() == v * unit(),
    {
        let negative: bool = v < 0;
        let mag: u128 = if v < 0 {
            (-(v as i64)) as u128
        } else {
            v as u128
        };
        proof {
            lemma_pow2_52_53();
            lemma_exact_steps(mag as nat, 1074, 0);
            crate::values::lemma_from_int_value(v as int);
        }
        round_pack(negative, mag, 1074, false, Ghost(mag as nat * unit()), Ghost(1))
    }

    /// The power with a whole exponent.
    pub fn powi(self, e: i32) -> (r: Binary64)
        ensures
            r == self.powi_spec(e as int),
    {
        let one = Binary64 { bits: ONE_BITS };
        let mut base: Binary64 = self;
        let mut acc: Binary64 = one;
        let mut left: u32 = if e < 0 {
            (-(e as i64)) as u32
        } else {
            e as u32
        };
        let ghost target = Self::powi_rounds(self, one, left as nat);
        let mut done: bool = false;
        while !done
            invariant
                done ==> acc == target,
                !done ==> Self::powi_rounds(base, acc, left as nat) == target,
            decreases
                (if done {
                    0nat
                } else {
                    left as nat + 1
                }),
        {
            if left % 2 == 1 {
                acc = acc.mul(base);
            }
            left = left / 2;
            if left == 0 {
                done = true;
            } else {
                base = base.mul(base);
            }
        }
        if e < 0 {
            one.div(acc)
        } else {
            acc
        }
    }
}

} // verus!
