//! What the rounding of `round_units` amounts to: the result is a binary64
//! magnitude, no binary64 magnitude is nearer to the exact quantity, and of
//! two that are equally near the one with the even significand is taken.
//! The exponent range is taken as unbounded here; `rounded` turns what is
//! past the largest finite magnitude into an infinity.

use vstd::prelude::*;
use vstd::arithmetic::power2::*;
use vstd::arithmetic::div_mod::*;
use vstd::math::abs;
use crate::binary64::{magnitude_of, Binary64};
use crate::rounding::{
    grid_exp,
    round_half_even,
    round_units,
    lemma_pow2_52_53,
    lemma_pow2_sum,
    lemma_pow2_monotone,
    lemma_div_mod_unique,
    lemma_grid_exp_in_binade,
    lemma_grid_exp_range,
    lemma_quotient_shape,
    lemma_rounded_code,
};

verus! {

/// A magnitude of at most 53 significant bits: a whole number of steps of
/// the spacing at its own size.
pub open spec fn representable(g: nat) -> bool {
    g % pow2(grid_exp(g)) == 0
}

/// The magnitude `s * 2^k` of the significand `s` is representable.
pub proof fn lemma_scaled_is_representable(s: nat, k: nat)
    requires
        (k == 0 && s < pow2(53)) || (pow2(52) <= s <= pow2(53)),
    ensures
        representable(s * pow2(k)),
{
    lemma_pow2_52_53();
    let h: nat = 0x10_0000_0000_0000;
    let p = pow2(k);
    let m = s * p;
    lemma_pow2_pos(k);
    if s < 2 * h {
        if s < h {
            assert(p == 1);
            assert(m == s) by (nonlinear_arith)
                requires
                    m == s * p,
                    p == 1,
            ;
            assert(grid_exp(m) == 0);
        } else {
            lemma_pow2_sum(52, k);
            lemma_pow2_sum(53, k);
            assert(pow2(52 + k) <= m) by (nonlinear_arith)
                requires
                    pow2(52 + k) == h * p,
                    m == s * p,
                    h <= s,
            ;
            assert(m < pow2(53 + k)) by (nonlinear_arith)
                requires
                    pow2(53 + k) == (2 * h) * p,
                    m == s * p,
                    s < 2 * h,
                    p > 0,
            ;
            lemma_grid_exp_in_binade(m, k);
        }
        lemma_div_mod_unique(m, p, s, 0);
    } else {
        lemma_pow2_sum(52, k + 1);
        lemma_pow2_sum(53, k + 1);
        lemma_pow2_unfold(k + 1);
        let pow_a = pow2(k + 1);
        assert(m == h * pow_a) by (nonlinear_arith)
            requires
                m == s * p,
                s == 2 * h,
                pow_a == 2 * p,
        ;
        assert(m < pow2(53 + (k + 1))) by (nonlinear_arith)
            requires
                m == h * pow_a,
                pow2(53 + (k + 1)) == (2 * h) * pow_a,
                pow_a > 0,
                h > 0,
        ;
        assert(52 + (k + 1) == 53 + k);
        lemma_grid_exp_in_binade(m, k + 1);
        lemma_div_mod_unique(m, pow_a, h, 0);
    }
}

/// The magnitude of every code is representable.
pub proof fn lemma_magnitude_is_representable(code: nat)
    ensures
        representable(magnitude_of(code)),
{
    lemma_pow2_52_53();
    let h: nat = 0x10_0000_0000_0000;
    let e = code / h;
    let f = code % h;
    if e == 0 {
        lemma_scaled_is_representable(f, 0);
        assert(f * pow2(0) == f);
    } else {
        lemma_scaled_is_representable(h + f, (e - 1) as nat);
    }
}

/// The result of the rounding is representable.
pub proof fn lemma_rounded_is_representable(n: nat, d: nat)
    requires
        d > 0,
    ensures
        representable(round_units(n, d)),
{
    lemma_pow2_52_53();
    lemma_rounded_code(n, d);
    let k = grid_exp(n / d);
    lemma_scaled_is_representable(round_half_even(n, d * pow2(k)), k);
}

/// A representable magnitude is a whole number of steps of any spacing that
/// is no wider than the spacing at its own size.
pub proof fn lemma_multiple_of_spacing(g: nat, k: nat)
    requires
        representable(g),
        k <= grid_exp(g),
    ensures
        g % pow2(k) == 0,
{
    let kg = grid_exp(g);
    let t = (kg - k) as nat;
    lemma_pow2_sum(k, t);
    assert(k + t == kg);
    lemma_pow2_pos(kg);
    let c = g / pow2(kg);
    lemma_fundamental_div_mod(g as int, pow2(kg) as int);
    assert(g == (pow2(t) * c) * pow2(k) + 0) by (nonlinear_arith)
        requires
            g == pow2(kg) * c,
            pow2(k) * pow2(t) == pow2(kg),
    ;
    lemma_div_mod_unique(g, pow2(k), pow2(t) * c, 0);
}

/// No representable magnitude lies strictly between the two neighbours of
/// `n / d` at the spacing of `n / d`.
pub proof fn lemma_no_magnitude_between(n: nat, d: nat, g: nat)
    requires
        d > 0,
        representable(g),
    ensures
        ({
            let p = pow2(grid_exp(n / d));
            let q = n / (d * p);
            g <= q * p || g >= (q + 1) * p
        }),
{
    lemma_pow2_52_53();
    let k = grid_exp(n / d);
    let p = pow2(k);
    let q = n / (d * p);
    lemma_pow2_pos(k);
    if q * p < g && g < (q + 1) * p {
        if k > 0 {
            lemma_quotient_shape(n, d);
            lemma_pow2_sum(52, k);
            assert(q * p >= pow2(52 + k)) by (nonlinear_arith)
                requires
                    q >= pow2(52),
                    pow2(52) * p == pow2(52 + k),
                    p > 0,
            ;
            lemma_grid_exp_range(g);
            let kg = grid_exp(g);
            if kg < k {
                if kg == 0 {
                    lemma_pow2_monotone(53, 52 + k);
                } else {
                    lemma_pow2_monotone(53 + kg, 52 + k);
                }
            }
        }
        lemma_multiple_of_spacing(g, k);
        let c = g / p;
        lemma_fundamental_div_mod(g as int, p as int);
        assert(false) by (nonlinear_arith)
            requires
                g == p * c,
                q * p < g,
                g < (q + 1) * p,
                p > 0,
        ;
    }
}

/// No representable magnitude is nearer to `n / d` than `round_units(n, d)`,
/// and where another is as near, the significand of `round_units(n, d)` is
/// even.
pub proof fn lemma_round_units_nearest(n: nat, d: nat, g: nat)
    requires
        d > 0,
        representable(g),
    ensures
        representable(round_units(n, d)),
        abs(n - round_units(n, d) * d) <= abs(n - g * d),
        abs(n - round_units(n, d) * d) == abs(n - g * d) && g != round_units(n, d)
            ==> (round_units(n, d) / pow2(grid_exp(n / d))) % 2 == 0,
{
    lemma_rounded_is_representable(n, d);
    lemma_no_magnitude_between(n, d, g);
    let k = grid_exp(n / d);
    let p = pow2(k);
    lemma_pow2_pos(k);
    let dd = d * p;
    assert(dd > 0) by (nonlinear_arith)
        requires
            dd == d * p,
            d > 0,
            p > 0,
    ;
    let q = n / dd;
    let r = n % dd;
    let m = round_half_even(n, dd);
    let near = round_units(n, d);
    lemma_fundamental_div_mod(n as int, dd as int);
    lemma_mod_pos_bound(n as int, dd as int);
    assert(near * d == m * dd) by (nonlinear_arith)
        requires
            near == m * p,
            dd == d * p,
    ;
    assert(n == q * dd + r) by (nonlinear_arith)
        requires
            n == dd * q + r,
    ;
    lemma_div_by_multiple(m as int, p as int);
    assert(near / p == m);
    if m == q {
        assert(2 * r <= dd);
        assert(near * d == q * dd);
    } else {
        assert(m == q + 1);
        assert(2 * r >= dd);
        assert(near * d == q * dd + dd) by (nonlinear_arith)
            requires
                near * d == m * dd,
                m == q + 1,
        ;
    }
    if g <= q * p {
        assert(g * d <= q * dd) by (nonlinear_arith)
            requires
                g <= q * p,
                dd == d * p,
        ;
        if m == q && n - g * d == r {
            assert(g * d == near * d);
            assert(g == near) by (nonlinear_arith)
                requires
                    g * d == near * d,
                    d > 0,
            ;
        }
    } else {
        assert(g * d >= q * dd + dd) by (nonlinear_arith)
            requires
                g >= (q + 1) * p,
                dd == d * p,
        ;
        if m == q + 1 && g * d - n == dd - r {
            assert(g * d == near * d);
            assert(g == near) by (nonlinear_arith)
                requires
                    g * d == near * d,
                    d > 0,
            ;
        }
    }
}

/// No binary64 number has a magnitude nearer to `n / d` than
/// `round_units(n, d)`.
pub proof fn lemma_no_number_is_nearer(n: nat, d: nat, x: Binary64)
    requires
        d > 0,
    ensures
        abs(n - round_units(n, d) * d) <= abs(n - x.magnitude() * d),
{
    lemma_magnitude_is_representable(x.code());
    lemma_round_units_nearest(n, d, x.magnitude());
}

} // verus!
