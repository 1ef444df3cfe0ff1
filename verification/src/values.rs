//! What the arithmetic does to the values of finite numbers: each result is
//! the exact result rounded, and rounding keeps the order.

use vstd::prelude::*;
use vstd::arithmetic::power2::*;
use crate::binary64::{
    Binary64,
    magnitude_of,
    unit,
    lemma_magnitude_order,
    lemma_named_magnitudes,
    INFINITY_BITS,
};
use crate::rounding::{
    grid_exp,
    round_half_even,
    round_units,
    rounded,
    lemma_pow2_52_53,
    lemma_pow2_sum,
    lemma_pow2_monotone,
    lemma_magnitude_of_code,
    lemma_rounded_code,
    lemma_rounded_zero,
    lemma_round_units_monotone,
    lemma_round_units_exact,
};

verus! {

/// The magnitude of infinity: two to the power 2098 units.
pub open spec fn top() -> nat {
    pow2(2098)
}

/// A rounded magnitude, held at the magnitude of infinity.
pub open spec fn clamp(m: nat) -> nat {
    if m >= top() {
        top()
    } else {
        m
    }
}

/// A whole number of units rounded to binary64, with its sign; past the
/// largest finite magnitude it is the value of an infinity.
pub open spec fn round_signed(v: int) -> int {
    if v < 0 {
        -(clamp(round_units((-v) as nat, 1)) as int)
    } else {
        clamp(round_units(v as nat, 1)) as int
    }
}

/// The magnitude of infinity is that of its code, and no number that is not
/// a NaN has a larger one.
pub proof fn lemma_top(x: Binary64)
    ensures
        magnitude_of(INFINITY_BITS as nat) == top(),
        !x.is_nan_spec() ==> x.magnitude() <= top(),
        !x.is_nan_spec() ==> (x.is_finite_spec() <==> x.magnitude() < top()),
        x.magnitude() == 0 <==> x.code() == 0,
{
    lemma_pow2_52_53();
    lemma_magnitude_of_code(0x20_0000_0000_0000, 2045);
    lemma_pow2_sum(53, 2045);
    assert(2045 * 0x10_0000_0000_0000 + 0x20_0000_0000_0000 == INFINITY_BITS);
    lemma_magnitude_order(x.code(), INFINITY_BITS as nat);
    lemma_magnitude_order(x.code(), 0);
    lemma_named_magnitudes();
}

/// The value of a rounded quantity.
pub proof fn lemma_rounded_value(negative: bool, n: nat, d: nat)
    requires
        d > 0,
    ensures
        !rounded(negative, n, d).is_nan_spec(),
        rounded(negative, n, d).is_sign_negative_spec() == negative,
        rounded(negative, n, d).magnitude() == clamp(round_units(n, d)),
{
    lemma_pow2_52_53();
    lemma_rounded_code(n, d);
    lemma_top(rounded(negative, n, d));
    let h: nat = 0x10_0000_0000_0000;
    let k = grid_exp(n / d);
    let m = round_half_even(n, d * pow2(k));
    let p = pow2(k);
    lemma_pow2_pos(k);
    if k >= 2046 {
        lemma_pow2_monotone(2046, k);
        lemma_pow2_sum(52, 2046);
        assert(m * p >= top()) by (nonlinear_arith)
            requires
                m >= h,
                p >= pow2(2046),
                top() == h * pow2(2046),
        ;
    } else {
        lemma_magnitude_of_code(m, k);
        lemma_pow2_monotone(k, 2045);
        lemma_pow2_sum(53, 2045);
        assert(m * p <= top()) by (nonlinear_arith)
            requires
                m <= 2 * h,
                0 < p <= pow2(2045),
                top() == (2 * h) * pow2(2045),
        ;
        assert(k * h + m <= INFINITY_BITS);
    }
}

/// The conversion of a whole number of at most 53 bits is exact.
pub proof fn lemma_from_int_value(v: int)
    requires
        -pow2(53) < v < pow2(53),
    ensures
        Binary64::from_int_spec(v).is_finite_spec(),
        Binary64::from_int_spec(v).value() == v * unit(),
        Binary64::from_int_spec(v).is_sign_negative_spec() == (v < 0),
{
    let s: nat = if v < 0 {
        (-v) as nat
    } else {
        v as nat
    };
    let r = Binary64::from_int_spec(v);
    lemma_round_units_exact(s, 1074);
    lemma_rounded_value(v < 0, s * unit(), 1);
    assert((-v) * unit() == -(v * unit())) by (nonlinear_arith);
    lemma_pow2_sum(53, 1074);
    lemma_pow2_monotone(53 + 1074, 2098);
    lemma_pow2_pos(1074);
    assert(s * unit() < top()) by (nonlinear_arith)
        requires
            s < pow2(53),
            unit() > 0,
            pow2(53) * unit() <= top(),
    ;
    lemma_top(r);
}

/// The product of finite numbers: the sign is negative when one of the two
/// signs is, and the magnitude is the exact product rounded.
pub proof fn lemma_mul_value(a: Binary64, b: Binary64)
    requires
        a.is_finite_spec(),
        b.is_finite_spec(),
    ensures
        !a.mul_spec(b).is_nan_spec(),
        a.mul_spec(b).is_sign_negative_spec() == (a.is_sign_negative_spec()
            != b.is_sign_negative_spec()),
        a.mul_spec(b).magnitude() == clamp(round_units(a.magnitude() * b.magnitude(), unit())),
{
    lemma_pow2_pos(1074);
    lemma_rounded_value(
        a.is_sign_negative_spec() != b.is_sign_negative_spec(),
        a.magnitude() * b.magnitude(),
        unit(),
    );
}

/// The sum of finite numbers is the exact sum rounded.
pub proof fn lemma_add_value(a: Binary64, b: Binary64)
    requires
        a.is_finite_spec(),
        b.is_finite_spec(),
    ensures
        !a.add_spec(b).is_nan_spec(),
        a.add_spec(b).value() == round_signed(a.value() + b.value()),
{
    let sum = a.value() + b.value();
    lemma_named_magnitudes();
    lemma_pow2_pos(2098);
    if sum == 0 {
        lemma_rounded_zero(1);
    } else if sum < 0 {
        lemma_rounded_value(true, (-sum) as nat, 1);
    } else {
        lemma_rounded_value(false, sum as nat, 1);
    }
}

/// Rounding a whole number of units keeps the order.
pub proof fn lemma_round_signed_monotone(v1: int, v2: int)
    requires
        v1 <= v2,
    ensures
        round_signed(v1) <= round_signed(v2),
{
    if v1 < 0 && v2 < 0 {
        lemma_round_units_monotone((-v2) as nat, (-v1) as nat, 1);
    } else if v1 >= 0 {
        lemma_round_units_monotone(v1 as nat, v2 as nat, 1);
    }
}

/// The order of two finite numbers is the order of their sums with two
/// others in the same order.
pub proof fn lemma_add_monotone(a1: Binary64, a2: Binary64, c1: Binary64, c2: Binary64)
    requires
        a1.is_finite_spec(),
        a2.is_finite_spec(),
        c1.is_finite_spec(),
        c2.is_finite_spec(),
        a1.value() <= a2.value(),
        c1.value() <= c2.value(),
    ensures
        a1.add_spec(c1).le_spec(a2.add_spec(c2)),
{
    lemma_add_value(a1, c1);
    lemma_add_value(a2, c2);
    lemma_round_signed_monotone(a1.value() + c1.value(), a2.value() + c2.value());
}

/// Multiplying two finite numbers by a finite number that is not negative
/// keeps their order.
pub proof fn lemma_mul_monotone(a1: Binary64, a2: Binary64, g: Binary64)
    requires
        a1.is_finite_spec(),
        a2.is_finite_spec(),
        g.is_finite_spec(),
        !g.is_sign_negative_spec(),
        a1.value() <= a2.value(),
    ensures
        a1.mul_spec(g).le_spec(a2.mul_spec(g)),
{
    lemma_mul_value(a1, g);
    lemma_mul_value(a2, g);
    lemma_pow2_pos(1074);
    let m1 = a1.magnitude();
    let m2 = a2.magnitude();
    let mg = g.magnitude();
    lemma_rounded_zero(unit());
    if m1 == 0 {
        assert(m1 * mg == 0) by (nonlinear_arith)
            requires
                m1 == 0,
        ;
    }
    if m2 == 0 {
        assert(m2 * mg == 0) by (nonlinear_arith)
            requires
                m2 == 0,
        ;
    }
    if m1 <= m2 {
        assert(m1 * mg <= m2 * mg) by (nonlinear_arith)
            requires
                m1 <= m2,
        ;
        lemma_round_units_monotone(m1 * mg, m2 * mg, unit());
    } else {
        assert(m2 * mg <= m1 * mg) by (nonlinear_arith)
            requires
                m2 <= m1,
        ;
        lemma_round_units_monotone(m2 * mg, m1 * mg, unit());
    }
}

/// The two factors of a product may change places.
pub proof fn lemma_mul_commutes(a: Binary64, b: Binary64)
    ensures
        a.mul_spec(b) == b.mul_spec(a),
{
    assert(a.magnitude() * b.magnitude() == b.magnitude() * a.magnitude()) by (nonlinear_arith);
}

} // verus!
