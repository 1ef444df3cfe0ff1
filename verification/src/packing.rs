//! From a significand, an exponent and a note of what was cut off to the
//! encoding of the nearest binary64 number.

use vstd::prelude::*;
use vstd::arithmetic::power2::*;
use vstd::arithmetic::div_mod::*;
use crate::binary64::{Binary64, HIDDEN_BIT, INFINITY_BITS, SIGN_BIT};
use crate::rounding::{
    grid_exp,
    round_half_even,
    rounded,
    lemma_pow2_52_53,
    lemma_pow2_sum,
    lemma_pow2_monotone,
    lemma_div_bounds,
    lemma_div_mod_unique,
    lemma_grid_exp_in_binade,
    lemma_rounded_code,
    lemma_rounded_zero,
    lemma_round_core,
    lemma_round_half_even_scaled,
};

verus! {

/// The two largest powers of two that the work on 128-bit significands meets.
pub proof fn lemma_pow2_127()
    ensures
        pow2(127) == 0x8000_0000_0000_0000_0000_0000_0000_0000,
        pow2(128) == 0x1_0000_0000_0000_0000_0000_0000_0000_0000,
{
    lemma2_to64();
    lemma2_to64_rest();
    lemma_pow2_adds(64, 63);
    lemma_pow2_adds(64, 64);
}

/// Two to the power `e`.
pub(crate) fn pow2_u128(e: u32) -> (r: u128)
    requires
        e <= 127,
    ensures
        r == pow2(e as nat),
{
    let mut r: u128 = 1;
    let mut i: u32 = 0;
    proof {
        lemma_pow2_52_53();
    }
    while i < e
        invariant
            i <= e <= 127,
            r == pow2(i as nat),
        decreases e - i,
    {
        proof {
            lemma_pow2_unfold((i + 1) as nat);
            lemma_pow2_monotone((i + 1) as nat, 127);
            lemma_pow2_127();
        }
        r = r * 2;
        i = i + 1;
    }
    r
}

/// The number of bits of `x` up to and including its highest set bit.
pub(crate) fn bit_length(x: u128) -> (len: u32)
    requires
        x < 0x8000_0000_0000_0000_0000_0000_0000_0000,
    ensures
        len <= 127,
        x < pow2(len as nat),
        len > 0 ==> pow2((len - 1) as nat) <= x,
        (x == 0) == (len == 0),
{
    let mut y: u128 = x;
    let mut len: u32 = 0;
    proof {
        lemma_pow2_52_53();
    }
    while y > 0
        invariant
            len <= 127,
            x < 0x8000_0000_0000_0000_0000_0000_0000_0000,
            y == (x as nat) / pow2(len as nat),
            len > 0 ==> pow2((len - 1) as nat) <= x,
            len == 0 ==> y == x,
        decreases y,
    {
        proof {
            let p = pow2(len as nat);
            lemma_pow2_pos(len as nat);
            lemma_div_bounds(x as nat, p, 1);
            assert(p <= x);
            lemma_pow2_127();
            if len >= 127 {
                lemma_pow2_monotone(127, len as nat);
            }
            lemma_div_denominator(x as int, p as int, 2);
            lemma_pow2_unfold((len + 1) as nat);
            assert(p * 2 == pow2((len + 1) as nat));
        }
        y = y / 2;
        len = len + 1;
    }
    proof {
        lemma_pow2_52_53();
        lemma_pow2_pos(len as nat);
        lemma_div_bounds(x as nat, pow2(len as nat), 1);
        if len > 0 {
            lemma_pow2_pos((len - 1) as nat);
        }
    }
    len
}

/// Where the whole part of `n / d` lies, from the length of `sig`, the whole
/// part of `n / d` counted in steps of two to the power `x`.
pub proof fn lemma_floor_binade(n: nat, d: nat, sig: nat, x: int, len: nat)
    requires
        d > 0,
        len >= 1,
        pow2((len - 1) as nat) <= sig < pow2(len),
        x >= 0 ==> sig == n / (d * pow2(x as nat)),
        x < 0 ==> sig == (n * pow2((-x) as nat)) / d,
    ensures
        len + x <= 0 ==> n / d == 0,
        len + x >= 1 ==> pow2((len + x - 1) as nat) <= n / d < pow2((len + x) as nat),
{
    let f = n / d;
    let lo = pow2((len - 1) as nat);
    let hi = pow2(len);
    if x >= 0 {
        let p = pow2(x as nat);
        lemma_pow2_pos(x as nat);
        lemma_div_denominator(n as int, d as int, p as int);
        assert(f / p == sig);
        lemma_fundamental_div_mod(f as int, p as int);
        lemma_mod_pos_bound(f as int, p as int);
        lemma_pow2_sum((len - 1) as nat, x as nat);
        lemma_pow2_sum(len, x as nat);
        let w = f % p;
        assert(f >= lo * p) by (nonlinear_arith)
            requires
                f == p * sig + w,
                sig >= lo,
                p > 0,
        ;
        assert(f < hi * p) by (nonlinear_arith)
            requires
                f == p * sig + w,
                w < p,
                sig + 1 <= hi,
                p > 0,
        ;
        assert((len - 1) as nat + x as nat == (len + x - 1) as nat);
        assert(len + x as nat == (len + x) as nat);
    } else {
        let a = (-x) as nat;
        let p = pow2(a);
        lemma_pow2_pos(a);
        let big = n * p;
        lemma_div_denominator(big as int, d as int, p as int);
        lemma_round_half_even_scaled(n, d, p);
        assert(sig / p == f);
        if len <= a {
            lemma_pow2_monotone(len, a);
            lemma_basic_div(sig as int, p as int);
        } else {
            lemma_pow2_sum((len - 1 - a) as nat, a);
            lemma_pow2_sum((len - a) as nat, a);
            assert((len - 1 - a) as nat + a == (len - 1) as nat);
            assert((len - a) as nat + a == len);
            lemma_div_bounds(sig, p, pow2((len - 1 - a) as nat));
            lemma_div_bounds(sig, p, pow2((len - a) as nat));
        }
    }
}

/// A whole number `sig` of steps of two to the power `up - down`, written as
/// the fraction of `sig * 2^up` over `2^down`, is handed over exactly.
pub proof fn lemma_exact_steps(sig: nat, up: nat, down: nat)
    ensures
        ({
            let n = sig * pow2(up);
            let d = pow2(down);
            let x = up - down;
            &&& d > 0
            &&& x >= 0 ==> sig == n / (d * pow2(x as nat)) && n % (d * pow2(x as nat)) == 0
            &&& x < 0 ==> sig == (n * pow2((-x) as nat)) / d && (n * pow2((-x) as nat)) % d == 0
        }),
{
    let n = sig * pow2(up);
    let d = pow2(down);
    lemma_pow2_pos(down);
    lemma_pow2_pos(up);
    if up >= down {
        let x = (up - down) as nat;
        lemma_pow2_sum(down, x);
        assert(down + x == up);
        lemma_div_mod_unique(n, pow2(up), sig, 0);
    } else {
        let a = (down - up) as nat;
        lemma_pow2_sum(up, a);
        assert(up + a == down);
        assert(n * pow2(a) == sig * d) by (nonlinear_arith)
            requires
                n == sig * pow2(up),
                pow2(up) * pow2(a) == d,
        ;
        lemma_div_mod_unique(n * pow2(a), d, sig, 0);
    }
}

/// A quantity whose whole part is zero, with nothing cut off, is zero.
pub proof fn lemma_exact_zero(n: nat, d: nat, x: int)
    requires
        d > 0,
        x >= 0 ==> n / (d * pow2(x as nat)) == 0 && n % (d * pow2(x as nat)) == 0,
        x < 0 ==> (n * pow2((-x) as nat)) / d == 0 && (n * pow2((-x) as nat)) % d == 0,
    ensures
        n == 0,
{
    if x >= 0 {
        let p = pow2(x as nat);
        lemma_pow2_pos(x as nat);
        assert(d * p > 0) by (nonlinear_arith)
            requires
                d > 0,
                p > 0,
        ;
        lemma_fundamental_div_mod(n as int, (d * p) as int);
    } else {
        let p = pow2((-x) as nat);
        lemma_pow2_pos((-x) as nat);
        lemma_fundamental_div_mod((n * p) as int, d as int);
        assert(n == 0) by (nonlinear_arith)
            requires
                n * p == 0,
                p > 0,
        ;
    }
}

/// A whole number of steps of two to the power `x`, cut at a spacing of two
/// to the power `k` that is no wider, needs no rounding.
pub proof fn lemma_exact_shift(n: nat, d: nat, sig: nat, x: nat, k: nat)
    requires
        d > 0,
        k <= x,
        sig == n / (d * pow2(x)),
        n % (d * pow2(x)) == 0,
    ensures
        round_half_even(n, d * pow2(k)) == sig * pow2((x - k) as nat),
{
    let t = (x - k) as nat;
    let px = pow2(x);
    let pk = pow2(k);
    let pt = pow2(t);
    lemma_pow2_sum(k, t);
    lemma_pow2_pos(x);
    assert(k + t == x);
    assert(d * px > 0) by (nonlinear_arith)
        requires
            d > 0,
            px > 0,
    ;
    assert(d * pk > 0) by (nonlinear_arith)
        requires
            d > 0,
            pk > 0,
    ;
    lemma_fundamental_div_mod(n as int, (d * px) as int);
    assert(n == (sig * pt) * (d * pk) + 0) by (nonlinear_arith)
        requires
            n == (d * px) * sig,
            px == pk * pt,
    ;
    lemma_div_mod_unique(n, d * pk, sig * pt, 0);
}

/// A quantity below half a unit rounds to zero.
pub proof fn lemma_tiny(n: nat, d: nat, sig: nat, a: nat)
    requires
        d > 0,
        a >= 128,
        sig == (n * pow2(a)) / d,
        sig < pow2(127),
    ensures
        n / d == 0,
        round_half_even(n, d * pow2(0)) == 0,
{
    lemma_pow2_52_53();
    let p = pow2(a);
    let c = pow2(127);
    lemma_pow2_monotone(128, a);
    lemma_pow2_unfold(128);
    lemma_pow2_pos(127);
    let big = n * p;
    lemma_div_bounds(big, d, c);
    assert(big < c * d);
    assert(2 * n < d) by (nonlinear_arith)
        requires
            big == n * p,
            big < c * d,
            p >= 2 * c,
            c > 0,
    ;
    lemma_basic_div(n as int, d as int);
    lemma_small_mod(n, d);
    assert(d * pow2(0) == d);
}

/// Sets the sign bit of a sign-free code, or leaves the code as it is.
pub(crate) fn with_sign(negative: bool, code: u64) -> (r: Binary64)
    requires
        code < SIGN_BIT,
    ensures
        r.bits == if negative {
            code + SIGN_BIT
        } else {
            code as int
        },
        r.code() == code,
        r.is_sign_negative_spec() == negative,
{
    if negative {
        Binary64 { bits: code + SIGN_BIT }
    } else {
        Binary64 { bits: code }
    }
}

/// Rounds the quantity `n / d`, handed over as `sig` steps of two to the
/// power `x` and a note, `sticky`, of whether anything lies beyond the last
/// step. With `sticky` set, `sig` has to be long enough to leave a bit below
/// the rounding position.
pub(crate) fn round_pack(
    negative: bool,
    sig: u128,
    x: i32,
    sticky: bool,
    Ghost(n): Ghost<nat>,
    Ghost(d): Ghost<nat>,
) -> (r: Binary64)
    requires
        d > 0,
        sig < 0x8000_0000_0000_0000_0000_0000_0000_0000,
        -4000 <= x <= 4000,
        sticky ==> sig >= 0x40_0000_0000_0000,
        x >= 0 ==> sig == n / (d * pow2(x as nat)) && sticky == (n % (d * pow2(x as nat)) != 0),
        x < 0 ==> sig == (n * pow2((-x) as nat)) / d && sticky == ((n * pow2((-x) as nat)) % d
            != 0),
    ensures
        r == rounded(negative, n, d),
{
    proof {
        lemma_pow2_52_53();
        lemma_pow2_127();
        lemma_rounded_code(n, d);
    }
    if sig == 0 {
        proof {
            lemma_exact_zero(n, d, x as int);
            lemma_rounded_zero(d);
        }
        return with_sign(negative, 0);
    }
    let len: u32 = bit_length(sig);
    let top: i32 = len as i32 + x;
    let k: i32 = if top > 53 {
        top - 53
    } else {
        0
    };
    let s: i32 = k - x;
    proof {
        lemma_floor_binade(n, d, sig as nat, x as int, len as nat);
        if top > 53 {
            assert((len + x - 1) as nat == 52 + k as nat);
            assert((len + x) as nat == 53 + k as nat);
        } else if top >= 1 {
            lemma_pow2_monotone(top as nat, 53);
        }
        lemma_grid_exp_in_binade(n / d, k as nat);
        assert(grid_exp(n / d) == k as nat);
        if sticky {
            if len < 55 {
                lemma_pow2_monotone(len as nat, 54);
            }
            assert(s >= 2);
        }
    }
    let ghost target = round_half_even(n, d * pow2(k as nat));
    let m: u128;
    if s <= 0 {
        let t: u32 = (x - k) as u32;
        proof {
            lemma_exact_shift(n, d, sig as nat, x as nat, k as nat);
            assert(target == sig * pow2(t as nat));
        }
        let p: u128 = pow2_u128(t);
        m = sig * p;
    } else if s > 127 {
        proof {
            lemma_tiny(n, d, sig as nat, (-x) as nat);
        }
        m = 0;
    } else {
        let p: u128 = pow2_u128(s as u32);
        proof {
            lemma_pow2_pos(s as nat);
        }
        let q: u128 = sig / p;
        let rem: u128 = sig % p;
        let half: u128 = p / 2;
        let up: bool = rem > half || (rem == half && (sticky || q % 2 == 1));
        proof {
            lemma_pow2_unfold(s as nat);
            lemma_fundamental_div_mod(sig as int, p as int);
            assert(sig == q * p + rem) by (nonlinear_arith)
                requires
                    sig == p * q + rem,
            ;
            if x >= 0 {
                let u = d * pow2(x as nat);
                lemma_pow2_sum(x as nat, s as nat);
                assert(u > 0) by (nonlinear_arith)
                    requires
                        u == d * pow2(x as nat),
                        d > 0,
                        pow2(x as nat) > 0,
                ;
                lemma_round_core(n, u, sig as nat, s as nat, q as nat, rem as nat);
                assert(u * pow2(s as nat) == d * pow2(k as nat)) by (nonlinear_arith)
                    requires
                        u == d * pow2(x as nat),
                        pow2(x as nat) * pow2(s as nat) == pow2(k as nat),
                ;
            } else {
                let a = (-x) as nat;
                let pa = pow2(a);
                let pk = pow2(k as nat);
                lemma_pow2_sum(k as nat, a);
                assert(k as nat + a == s as nat);
                lemma_round_core(n * pa, d, sig as nat, s as nat, q as nat, rem as nat);
                assert(d * pk > 0) by (nonlinear_arith)
                    requires
                        d > 0,
                        pk > 0,
                ;
                lemma_round_half_even_scaled(n, d * pk, pa);
                assert(d * pow2(s as nat) == (d * pk) * pa) by (nonlinear_arith)
                    requires
                        pow2(s as nat) == pk * pa,
                ;
            }
            assert(target == q + if up {
                1nat
            } else {
                0nat
            });
        }
        m = if up {
            q + 1
        } else {
            q
        };
    }
    assert(m == target);
    if k >= 2046 {
        with_sign(negative, INFINITY_BITS)
    } else {
        with_sign(negative, (k as u64) * HIDDEN_BIT + (m as u64))
    }
}

} // verus!
