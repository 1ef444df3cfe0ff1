//! A higher billing rate never gives a lower cumulative profit.

use vstd::prelude::*;
use vstd::arithmetic::power2::*;
use crate::binary64::{hundred, one, unit, Binary64, lemma_named_magnitudes};
use crate::params::{non_negative, FinancialParams};
use crate::projection::grown_by;
use crate::rounding::lemma_rounded_zero;
use crate::values::{
    lemma_top,
    lemma_rounded_value,
    lemma_add_monotone,
    lemma_mul_monotone,
    lemma_mul_commutes,
};

verus! {

/// A finite product has finite factors.
pub proof fn lemma_mul_finite_operands(a: Binary64, b: Binary64)
    requires
        a.mul_spec(b).is_finite_spec(),
    ensures
        a.is_finite_spec(),
        b.is_finite_spec(),
{
}

/// A finite sum has finite terms.
pub proof fn lemma_add_finite_operands(a: Binary64, b: Binary64)
    requires
        a.add_spec(b).is_finite_spec(),
    ensures
        a.is_finite_spec(),
        b.is_finite_spec(),
{
}

/// A product of two numbers without the sign bit has no sign bit.
pub proof fn lemma_mul_sign(a: Binary64, b: Binary64)
    requires
        !a.is_sign_negative_spec(),
        !b.is_sign_negative_spec(),
    ensures
        !a.mul_spec(b).is_sign_negative_spec(),
{
    lemma_pow2_pos(1074);
    lemma_rounded_value(false, a.magnitude() * b.magnitude(), unit());
}

/// A power, with a whole exponent, of a number without the sign bit has no
/// sign bit.
pub proof fn lemma_powi_rounds_sign(base: Binary64, acc: Binary64, e: nat)
    requires
        !base.is_sign_negative_spec(),
        !acc.is_sign_negative_spec(),
    ensures
        !Binary64::powi_rounds(base, acc, e).is_sign_negative_spec(),
    decreases e,
{
    lemma_mul_sign(acc, base);
    lemma_mul_sign(base, base);
    let next = if e % 2 == 1 {
        acc.mul_spec(base)
    } else {
        acc
    };
    if e / 2 != 0 {
        lemma_powi_rounds_sign(base.mul_spec(base), next, e / 2);
    }
}

/// One plus a percentage that is not negative has no sign bit.
pub proof fn lemma_grown_by_sign(percent: Binary64)
    requires
        non_negative(percent),
    ensures
        !grown_by(percent).is_sign_negative_spec(),
{
    lemma_named_magnitudes();
    lemma_pow2_pos(1074);
    lemma_pow2_pos(2098);
    lemma_top(percent);
    lemma_top(hundred());
    lemma_top(one());
    let share = percent.div_spec(hundred());
    assert(hundred().magnitude() > 0);
    if percent.is_infinite_spec() {
        assert(!percent.is_sign_negative_spec());
        assert(grown_by(percent) == share);
    } else {
        let n = percent.magnitude() * unit();
        lemma_rounded_value(percent.is_sign_negative_spec(), n, hundred().magnitude());
        lemma_top(share);
        if percent.is_sign_negative_spec() {
            assert(percent.magnitude() == 0);
            assert(n == 0) by (nonlinear_arith)
                requires
                    n == percent.magnitude() * unit(),
                    percent.magnitude() == 0,
            ;
            lemma_rounded_zero(hundred().magnitude());
        }
        assert(share.value() >= 0);
        if !share.is_infinite_spec() {
            let sum = one().value() + share.value();
            assert(sum > 0);
            lemma_rounded_value(false, sum as nat, 1);
        }
    }
}

impl FinancialParams {
    /// A cumulative profit is finite.
    pub proof fn lemma_profit_is_finite(self, rate: Binary64, years: int)
        ensures
            self.profit_through(rate, years) matches Ok(profit) ==> profit.is_finite_spec(),
        decreases years,
    {
        if years > 0 {
            self.lemma_profit_is_finite(rate, years - 1);
        }
    }
}

/// Of two billing rates, the higher gives a cumulative profit that is no
/// lower, where the projection gives a profit for both; so it gives a higher
/// one wherever the two profits are not the same number.
pub proof fn lemma_profit_ordered_by_rate(
    params: FinancialParams,
    lower: Binary64,
    higher: Binary64,
    years: int,
)
    requires
        params.valid(),
        lower.le_spec(higher),
        params.profit_through(lower, years) is Ok,
        params.profit_through(higher, years) is Ok,
    ensures
        params.profit_through(lower, years)->Ok_0.le_spec(
            params.profit_through(higher, years)->Ok_0,
        ),
        !params.profit_through(lower, years)->Ok_0.same_number_spec(
            params.profit_through(higher, years)->Ok_0,
        ) ==> params.profit_through(lower, years)->Ok_0.lt_spec(
            params.profit_through(higher, years)->Ok_0,
        ),
    decreases years,
{
    lemma_named_magnitudes();
    if years > 0 {
        lemma_profit_ordered_by_rate(params, lower, higher, years - 1);
        params.lemma_profit_is_finite(lower, years - 1);
        params.lemma_profit_is_finite(higher, years - 1);
        let before1 = params.profit_through(lower, years - 1)->Ok_0;
        let before2 = params.profit_through(higher, years - 1)->Ok_0;
        let factor = grown_by(params.rate_escalation).powi_spec(years - 1);
        let surcharge = grown_by(params.aic);
        let e1 = params.escalated_rate(lower, years);
        let e2 = params.escalated_rate(higher, years);
        // The escalated rates.
        lemma_mul_finite_operands(lower, factor);
        lemma_mul_finite_operands(higher, factor);
        lemma_grown_by_sign(params.rate_escalation);
        lemma_powi_rounds_sign(grown_by(params.rate_escalation), one(), (years - 1) as nat);
        lemma_mul_monotone(lower, higher, factor);
        // The revenues.
        let g1 = params.au_hours.mul_spec(e1);
        let g2 = params.au_hours.mul_spec(e2);
        let r1 = params.revenue(lower, years);
        let r2 = params.revenue(higher, years);
        assert(r1 == g1.mul_spec(surcharge));
        assert(r2 == g2.mul_spec(surcharge));
        lemma_mul_finite_operands(g1, surcharge);
        lemma_mul_finite_operands(g2, surcharge);
        lemma_mul_finite_operands(params.au_hours, e1);
        lemma_mul_commutes(params.au_hours, e1);
        lemma_mul_commutes(params.au_hours, e2);
        lemma_mul_monotone(e1, e2, params.au_hours);
        lemma_grown_by_sign(params.aic);
        lemma_mul_monotone(g1, g2, surcharge);
        // The profits of the year and the cumulative profits.
        let less = params.cost(years).neg_spec();
        let gain1 = r1.add_spec(less);
        let gain2 = r2.add_spec(less);
        assert(gain1 == r1.sub_spec(params.cost(years)));
        assert(gain2 == r2.sub_spec(params.cost(years)));
        lemma_add_finite_operands(before1, gain1);
        lemma_add_finite_operands(before2, gain2);
        lemma_add_finite_operands(r1, less);
        lemma_add_monotone(r1, r2, less, less);
        lemma_add_monotone(before1, before2, gain1, gain2);
    }
}

} // verus!
