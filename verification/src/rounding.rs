//! Rounding of an exact quantity to the nearest binary64 magnitude, ties to
//! the even significand, as IEEE 754 prescribes for its default mode.
//!
//! Exact quantities are fractions `n / d` of units (see `unit`).

use vstd::prelude::*;
use vstd::arithmetic::power2::*;
use vstd::arithmetic::div_mod::*;
use crate::binary64::{Binary64, magnitude_of, INFINITY_BITS, SIGN_BIT};

verus! {

/// The exponent of the spacing between neighbouring binary64 magnitudes at a
/// magnitude of `q` whole units: below two to the power 53 the spacing is one
/// unit, and it doubles with every further doubling of the magnitude.
pub open spec fn grid_exp(q: nat) -> nat
    decreases q,
{
    if q < 0x20_0000_0000_0000 {
        0
    } else {
        1 + grid_exp(q / 2)
    }
}

/// `n / d` rounded to the nearest whole number, a tie going to the even one.
pub open spec fn round_half_even(n: nat, d: nat) -> nat {
    let q = n / d;
    let r = n % d;
    if 2 * r > d || (2 * r == d && q % 2 == 1) {
        q + 1
    } else {
        q
    }
}

/// The binary64 magnitude nearest to `n / d` units, a tie going to the even
/// significand. A result of two to the power 2098 or more is past the largest
/// finite magnitude.
pub open spec fn round_units(n: nat, d: nat) -> nat {
    let k = grid_exp(n / d);
    round_half_even(n, d * pow2(k)) * pow2(k)
}

/// The sign-free code of a binary64 magnitude.
pub open spec fn code_of(m: nat) -> nat {
    let k = grid_exp(m);
    k * 0x10_0000_0000_0000 + m / pow2(k)
}

/// The sign-free code of `n / d` units rounded; that of infinity when the
/// rounded magnitude is past the largest finite one.
pub open spec fn rounded_code(n: nat, d: nat) -> nat {
    let m = round_units(n, d);
    if m >= pow2(2098) {
        INFINITY_BITS as nat
    } else {
        code_of(m)
    }
}

/// The binary64 number nearest to `n / d` units, with the given sign; an
/// infinity when that is past the largest finite magnitude.
pub open spec fn rounded(negative: bool, n: nat, d: nat) -> Binary64 {
    let code = rounded_code(n, d);
    Binary64 {
        bits: (if negative {
            code + SIGN_BIT
        } else {
            code as int
        }) as u64,
    }
}

/// The powers of two at the ends of a significand.
pub proof fn lemma_pow2_52_53()
    ensures
        pow2(0) == 1,
        pow2(52) == 0x10_0000_0000_0000,
        pow2(53) == 0x20_0000_0000_0000,
        pow2(54) == 0x40_0000_0000_0000,
{
    lemma2_to64();
    lemma2_to64_rest();
}

/// Powers of two are positive, and exponents add under multiplication.
pub proof fn lemma_pow2_sum(a: nat, b: nat)
    ensures
        pow2(a) * pow2(b) == pow2(a + b),
        pow2(a) > 0,
        pow2(b) > 0,
{
    lemma_pow2_adds(a, b);
    lemma_pow2_pos(a);
    lemma_pow2_pos(b);
}

/// A larger exponent gives no smaller power of two.
pub proof fn lemma_pow2_monotone(a: nat, b: nat)
    requires
        a <= b,
    ensures
        pow2(a) <= pow2(b),
        pow2(a) > 0,
{
    lemma_pow2_pos(a);
    if a < b {
        lemma_pow2_strictly_increases(a, b);
    }
}

/// A quotient lies on the same side of `c` as the dividend lies of `c * p`.
pub proof fn lemma_div_bounds(x: nat, p: nat, c: nat)
    requires
        p > 0,
    ensures
        x < c * p ==> x / p < c,
        x >= c * p ==> x / p >= c,
{
    let q = x / p;
    let r = x % p;
    lemma_fundamental_div_mod(x as int, p as int);
    lemma_mod_pos_bound(x as int, p as int);
    if x < c * p {
        assert(q < c) by (nonlinear_arith)
            requires
                x == p * q + r,
                r >= 0,
                x < c * p,
                p > 0,
        ;
    }
    if x >= c * p {
        assert(q >= c) by (nonlinear_arith)
            requires
                x == p * q + r,
                r < p,
                x >= c * p,
                p > 0,
        ;
    }
}

/// Quotient and remainder are the only pair that recomposes the dividend.
pub proof fn lemma_div_mod_unique(x: nat, p: nat, q: nat, r: nat)
    requires
        r < p,
        x == q * p + r,
    ensures
        x / p == q,
        x % p == r,
{
    lemma_fundamental_div_mod_converse(x as int, p as int, q as int, r as int);
}

/// A magnitude inside the binade that starts at two to the power `52 + k` has
/// spacing exponent `k`.
pub proof fn lemma_grid_exp_in_binade(q: nat, k: nat)
    requires
        k == 0 ==> q < pow2(53),
        k > 0 ==> pow2(52 + k) <= q < pow2(53 + k),
    ensures
        grid_exp(q) == k,
    decreases k,
{
    lemma_pow2_52_53();
    if k > 0 {
        lemma_pow2_monotone(53, 52 + k);
        lemma_pow2_unfold(52 + k);
        lemma_pow2_unfold(53 + k);
        assert(pow2(52 + k) == 2 * pow2((51 + k) as nat));
        assert(pow2(53 + k) == 2 * pow2(52 + k));
        assert(((52 + k) - 1) as nat == 52 + (k - 1) as nat);
        assert(q / 2 < pow2(52 + k));
        assert(q / 2 >= pow2((51 + k) as nat));
        if k == 1 {
            assert(pow2(52 + k) == pow2(53));
        } else {
            assert(52 + (k - 1) as nat == (51 + k) as nat);
            assert(53 + (k - 1) as nat == 52 + k);
        }
        lemma_grid_exp_in_binade(q / 2, (k - 1) as nat);
    }
}

/// The binade in which a magnitude with spacing exponent `k` lies.
pub proof fn lemma_grid_exp_range(q: nat)
    ensures
        grid_exp(q) == 0 ==> q < pow2(53),
        grid_exp(q) > 0 ==> pow2(52 + grid_exp(q)) <= q < pow2(53 + grid_exp(q)),
    decreases q,
{
    lemma_pow2_52_53();
    if q >= 0x20_0000_0000_0000 {
        let k1 = grid_exp(q / 2);
        lemma_grid_exp_range(q / 2);
        assert(grid_exp(q) == 1 + k1);
        lemma_pow2_unfold(52 + (1 + k1));
        lemma_pow2_unfold(53 + (1 + k1));
        assert((52 + (1 + k1) - 1) as nat == 52 + k1);
        assert((53 + (1 + k1) - 1) as nat == 53 + k1);
        if k1 == 0 {
            assert(pow2(53 + k1) == pow2(53));
            assert(pow2(52 + (1 + k1)) == pow2(53));
        } else {
            lemma_pow2_unfold(53 + k1);
            assert((53 + k1 - 1) as nat == 52 + k1);
        }
    }
}

/// The magnitude that the code `k * 2^52 + s` stands for is `s * 2^k`, for a
/// significand `s` below two to the power 52 with `k == 0`, or from two to
/// the power 52 up to and including two to the power 53.
pub proof fn lemma_magnitude_of_code(s: nat, k: nat)
    requires
        (k == 0 && s < pow2(53)) || (pow2(52) <= s <= pow2(53)),
    ensures
        magnitude_of(k * 0x10_0000_0000_0000 + s) == s * pow2(k),
{
    lemma_pow2_52_53();
    let h: nat = 0x10_0000_0000_0000;
    let code = k * h + s;
    if s < h {
        assert(k == 0);
        assert(code == s);
        assert(s * pow2(0) == s);
    } else if s < 2 * h {
        lemma_div_mod_unique(code, h, k + 1, (s - h) as nat);
        assert(((k + 1) - 1) as nat == k);
        assert(h + (s - h) as nat == s);
    } else {
        assert(s == 2 * h);
        lemma_div_mod_unique(code, h, k + 2, 0);
        lemma_pow2_unfold(k + 1);
        assert(((k + 2) - 1) as nat == k + 1);
        assert(((k + 1) - 1) as nat == k);
        let p = pow2(k);
        assert((h + 0) * (2 * p) == (2 * h) * p) by (nonlinear_arith);
    }
}

/// The code of the magnitude `s * 2^k` is `k * 2^52 + s`, for the
/// significands of `lemma_magnitude_of_code`.
pub proof fn lemma_code_of_scaled(s: nat, k: nat)
    requires
        (k == 0 && s < pow2(53)) || (pow2(52) <= s <= pow2(53)),
    ensures
        code_of(s * pow2(k)) == k * 0x10_0000_0000_0000 + s,
{
    lemma_pow2_52_53();
    let h: nat = 0x10_0000_0000_0000;
    let p = pow2(k);
    let m = s * p;
    lemma_pow2_pos(k);
    if s < h {
        assert(k == 0);
        assert(p == 1);
        assert(m == s) by (nonlinear_arith)
            requires
                m == s * p,
                p == 1,
        ;
        assert(grid_exp(m) == 0);
        assert(m / pow2(0) == m);
    } else if s < 2 * h {
        lemma_pow2_sum(52, k);
        lemma_pow2_sum(53, k);
        assert(pow2(52 + k) <= m) by (nonlinear_arith)
            requires
                pow2(52 + k) == h * p,
                m == s * p,
                h <= s,
        ;
        assert(m < pow2(53 + k)) by (nonlinear_arith)
            requires
                pow2(53 + k) == (2 * h) * p,
                m == s * p,
                s < 2 * h,
                p > 0,
        ;
        lemma_grid_exp_in_binade(m, k);
        lemma_div_by_multiple(s as int, p as int);
    } else {
        assert(s == 2 * h);
        lemma_pow2_sum(52, k + 1);
        lemma_pow2_sum(53, k + 1);
        lemma_pow2_unfold(k + 1);
        assert(((k + 1) - 1) as nat == k);
        let pow_a = pow2(k + 1);
        assert(m == h * pow_a) by (nonlinear_arith)
            requires
                m == s * p,
                s == 2 * h,
                pow_a == 2 * p,
        ;
        assert(m < pow2(53 + (k + 1))) by (nonlinear_arith)
            requires
                m == h * pow_a,
                pow2(53 + (k + 1)) == (2 * h) * pow_a,
                pow_a > 0,
                h > 0,
        ;
        assert(52 + (k + 1) == 53 + k);
        lemma_grid_exp_in_binade(m, k + 1);
        lemma_div_by_multiple(h as int, pow_a as int);
        assert(m / pow_a == h);
    }
}

/// The shape of a quantity cut at its own spacing: the quotient fills the 53
/// bits of a significand, and all of them once the spacing is more than one
/// unit.
pub proof fn lemma_quotient_shape(n: nat, d: nat)
    requires
        d > 0,
    ensures
        ({
            let k = grid_exp(n / d);
            let q = n / (d * pow2(k));
            &&& q == (n / d) / pow2(k)
            &&& q < pow2(53)
            &&& k > 0 ==> q >= pow2(52)
        }),
{
    lemma_pow2_52_53();
    let f = n / d;
    let k = grid_exp(f);
    let p = pow2(k);
    lemma_pow2_pos(k);
    lemma_div_denominator(n as int, d as int, p as int);
    lemma_grid_exp_range(f);
    if k == 0 {
        assert(f / 1 == f);
    } else {
        lemma_pow2_sum(52, k);
        lemma_pow2_sum(53, k);
        lemma_div_bounds(f, p, pow2(52));
        lemma_div_bounds(f, p, pow2(53));
    }
}

/// The code of a rounded quantity, from its spacing exponent and its rounded
/// significand.
pub proof fn lemma_rounded_code(n: nat, d: nat)
    requires
        d > 0,
    ensures
        ({
            let k = grid_exp(n / d);
            let m = round_half_even(n, d * pow2(k));
            &&& m <= pow2(53)
            &&& k > 0 ==> m >= pow2(52)
            &&& round_units(n, d) == m * pow2(k)
            &&& rounded_code(n, d) == if k >= 2046 {
                INFINITY_BITS as nat
            } else {
                k * 0x10_0000_0000_0000 + m
            }
        }),
{
    lemma_pow2_52_53();
    let h: nat = 0x10_0000_0000_0000;
    let k = grid_exp(n / d);
    let p = pow2(k);
    let m = round_half_even(n, d * p);
    let big = m * p;
    lemma_quotient_shape(n, d);
    lemma_pow2_pos(k);
    assert(m <= pow2(53));
    if k >= 2046 {
        lemma_pow2_monotone(2046, k);
        lemma_pow2_sum(52, 2046);
        assert(big >= pow2(2098)) by (nonlinear_arith)
            requires
                big == m * p,
                m >= h,
                p >= pow2(2046),
                pow2(2098) == h * pow2(2046),
        ;
    } else {
        if (k == 0 && m < pow2(53)) || pow2(52) <= m {
            lemma_code_of_scaled(m, k);
        }
        lemma_pow2_monotone(k, 2045);
        lemma_pow2_sum(53, 2045);
        if big >= pow2(2098) {
            let top = pow2(2045);
            if m < 2 * h {
                assert(m * p < (2 * h) * p) by (nonlinear_arith)
                    requires
                        m < 2 * h,
                        p > 0,
                ;
                assert((2 * h) * p <= (2 * h) * top) by (nonlinear_arith)
                    requires
                        p <= top,
                        h > 0,
                ;
            }
            if k < 2045 {
                lemma_pow2_strictly_increases(k, 2045);
                assert(m * p <= (2 * h) * p) by (nonlinear_arith)
                    requires
                        m <= 2 * h,
                        p > 0,
                ;
                assert((2 * h) * p < (2 * h) * top) by (nonlinear_arith)
                    requires
                        p < top,
                        h > 0,
                ;
            }
            assert(k == 2045 && m == 2 * h);
        }
    }
}

/// Cutting `sig = q * 2^s + rem` after the last `s` bits rounds `n / u`, of
/// which `sig` is the whole part, at the spacing `u * 2^s`.
pub proof fn lemma_round_core(n: nat, u: nat, sig: nat, s: nat, q: nat, rem: nat)
    requires
        u > 0,
        s >= 1,
        sig == n / u,
        sig == q * pow2(s) + rem,
        rem < pow2(s),
    ensures
        n / (u * pow2(s)) == q,
        round_half_even(n, u * pow2(s)) == q + (if rem > pow2((s - 1) as nat) || (rem == pow2(
            (s - 1) as nat,
        ) && (n % u != 0 || q % 2 == 1)) {
            1nat
        } else {
            0nat
        }),
{
    let w = n % u;
    let p = pow2(s);
    let half = pow2((s - 1) as nat);
    let dd = u * p;
    let rr = rem * u + w;
    lemma_pow2_pos(s);
    lemma_pow2_unfold(s);
    lemma_fundamental_div_mod(n as int, u as int);
    lemma_mod_pos_bound(n as int, u as int);
    assert(n == q * dd + rr) by (nonlinear_arith)
        requires
            n == u * sig + w,
            sig == q * p + rem,
            dd == u * p,
            rr == rem * u + w,
    ;
    assert(rr < dd) by (nonlinear_arith)
        requires
            rem < p,
            w < u,
            dd == u * p,
            rr == rem * u + w,
    ;
    lemma_div_mod_unique(n, dd, q, rr);
    assert(dd == 2 * (half * u)) by (nonlinear_arith)
        requires
            dd == u * p,
            p == 2 * half,
    ;
    if rem > half {
        assert(rr >= (half + 1) * u) by (nonlinear_arith)
            requires
                rr == rem * u + w,
                rem >= half + 1,
                u > 0,
        ;
        assert((half + 1) * u == half * u + u) by (nonlinear_arith);
    } else if rem == half {
        assert(rr == half * u + w);
    } else {
        assert(rr < half * u) by (nonlinear_arith)
            requires
                rr == rem * u + w,
                rem + 1 <= half,
                w < u,
        ;
    }
}

/// Rounding to the nearest whole number depends on the fraction alone.
pub proof fn lemma_round_half_even_scaled(n: nat, d: nat, c: nat)
    requires
        d > 0,
        c > 0,
    ensures
        (n * c) / (d * c) == n / d,
        (n * c) % (d * c) == (n % d) * c,
        round_half_even(n * c, d * c) == round_half_even(n, d),
{
    let q = n / d;
    let r = n % d;
    lemma_fundamental_div_mod(n as int, d as int);
    lemma_mod_pos_bound(n as int, d as int);
    assert(n * c == q * (d * c) + r * c) by (nonlinear_arith)
        requires
            n == d * q + r,
    ;
    assert(r * c < d * c) by (nonlinear_arith)
        requires
            r < d,
            c > 0,
    ;
    lemma_div_mod_unique(n * c, d * c, q, r * c);
    assert(2 * r > d ==> 2 * (r * c) > d * c) by (nonlinear_arith)
        requires
            c > 0,
    ;
    assert(2 * r == d ==> 2 * (r * c) == d * c) by (nonlinear_arith);
    assert(2 * r < d ==> 2 * (r * c) < d * c) by (nonlinear_arith)
        requires
            c > 0,
    ;
}

/// Zero rounds to zero, whose code is zero.
pub proof fn lemma_rounded_zero(d: nat)
    requires
        d > 0,
    ensures
        round_units(0, d) == 0,
        rounded_code(0, d) == 0,
{
    lemma_pow2_52_53();
    lemma_pow2_pos(2098);
    assert(0nat / d == 0) by {
        lemma_basic_div(0, d as int);
    }
    assert(grid_exp(0) == 0);
    assert(d * pow2(0) == d);
    assert(0nat % d == 0) by {
        lemma_small_mod(0, d);
    }
    assert(round_half_even(0, d) == 0);
    assert(0nat * pow2(0) == 0);
    assert(0nat / pow2(0) == 0);
}

/// A larger quantity has no smaller spacing.
pub proof fn lemma_grid_exp_monotone(q1: nat, q2: nat)
    requires
        q1 <= q2,
    ensures
        grid_exp(q1) <= grid_exp(q2),
{
    let k1 = grid_exp(q1);
    let k2 = grid_exp(q2);
    lemma_grid_exp_range(q1);
    lemma_grid_exp_range(q2);
    if k1 > k2 {
        lemma_pow2_monotone(53 + k2, 52 + k1);
    }
}

/// Rounding to the nearest whole number keeps the order.
pub proof fn lemma_round_half_even_monotone(n1: nat, n2: nat, d: nat)
    requires
        d > 0,
        n1 <= n2,
    ensures
        round_half_even(n1, d) <= round_half_even(n2, d),
{
    lemma_div_is_ordered(n1 as int, n2 as int, d as int);
    lemma_fundamental_div_mod(n1 as int, d as int);
    lemma_fundamental_div_mod(n2 as int, d as int);
    if n1 / d == n2 / d {
        assert(n1 % d <= n2 % d);
    }
}

/// Rounding to binary64 keeps the order.
pub proof fn lemma_round_units_monotone(n1: nat, n2: nat, d: nat)
    requires
        d > 0,
        n1 <= n2,
    ensures
        round_units(n1, d) <= round_units(n2, d),
{
    lemma_pow2_52_53();
    lemma_div_is_ordered(n1 as int, n2 as int, d as int);
    let k1 = grid_exp(n1 / d);
    let k2 = grid_exp(n2 / d);
    lemma_grid_exp_monotone(n1 / d, n2 / d);
    lemma_rounded_code(n1, d);
    lemma_rounded_code(n2, d);
    let pow_a = pow2(k1);
    let pow_b = pow2(k2);
    lemma_pow2_pos(k1);
    lemma_pow2_pos(k2);
    let m1 = round_half_even(n1, d * pow_a);
    let m2 = round_half_even(n2, d * pow_b);
    if k1 == k2 {
        assert(d * pow_a > 0) by (nonlinear_arith)
            requires
                d > 0,
                pow_a > 0,
        ;
        lemma_round_half_even_monotone(n1, n2, d * pow_a);
        assert(m1 * pow_a <= m2 * pow_a) by (nonlinear_arith)
            requires
                m1 <= m2,
                pow_a > 0,
        ;
    } else {
        lemma_pow2_sum(53, k1);
        lemma_pow2_sum(52, k2);
        lemma_pow2_monotone(53 + k1, 52 + k2);
        assert(m1 * pow_a <= pow2(53) * pow_a) by (nonlinear_arith)
            requires
                m1 <= pow2(53),
                pow_a > 0,
        ;
        assert(pow2(52) * pow_b <= m2 * pow_b) by (nonlinear_arith)
            requires
                pow2(52) <= m2,
                pow_b > 0,
        ;
    }
}

/// A magnitude of at most 53 significant bits is a binary64 magnitude:
/// rounding leaves it as it is.
pub proof fn lemma_round_units_exact(s: nat, k: nat)
    requires
        s < pow2(53),
    ensures
        round_units(s * pow2(k), 1) == s * pow2(k),
{
    lemma_pow2_52_53();
    let m = s * pow2(k);
    assert(m / 1 == m);
    let g = grid_exp(m);
    lemma_grid_exp_range(m);
    lemma_pow2_sum(53, k);
    lemma_pow2_pos(k);
    assert(m < pow2(53 + k)) by (nonlinear_arith)
        requires
            m == s * pow2(k),
            s < pow2(53),
            pow2(k) > 0,
            pow2(53 + k) == pow2(53) * pow2(k),
    ;
    if g > k {
        lemma_pow2_monotone(53 + k, 52 + g);
    }
    assert(g <= k);
    let t = (k - g) as nat;
    lemma_pow2_sum(g, t);
    assert(g + t == k);
    assert(m == (s * pow2(t)) * (1 * pow2(g)) + 0) by (nonlinear_arith)
        requires
            m == s * pow2(k),
            pow2(g) * pow2(t) == pow2(k),
    ;
    lemma_div_mod_unique(m, 1 * pow2(g), s * pow2(t), 0);
    assert((s * pow2(t)) * pow2(g) == m) by (nonlinear_arith)
        requires
            m == s * pow2(k),
            pow2(g) * pow2(t) == pow2(k),
    ;
}

} // verus!
