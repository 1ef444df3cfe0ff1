//! The year-by-year projection of revenue, maintenance cost and profit.

use vstd::prelude::*;
use crate::binary64::{hundred, one, zero, Binary64};
use crate::errors::{ComputationError, Quantity};
use crate::params::FinancialParams;

verus! {

/// One plus a percentage.
pub open spec fn grown_by(percent: Binary64) -> Binary64 {
    one().add_spec(percent.div_spec(hundred()))
}

impl FinancialParams {
    /// Hours since new at the end of a year.
    pub open spec fn tsn(self, year: int) -> Binary64 {
        self.initial_tsn.add_spec(self.au_hours.mul_spec(Binary64::from_int_spec(year)))
    }

    /// The billing rate of a year: the rate of the first year, escalated once
    /// for every year since.
    pub open spec fn escalated_rate(self, rate: Binary64, year: int) -> Binary64 {
        rate.mul_spec(grown_by(self.rate_escalation).powi_spec(year - 1))
    }

    /// The revenue of a year: the hours at the rate of that year, with the
    /// surcharge for additional inspections.
    pub open spec fn revenue(self, rate: Binary64, year: int) -> Binary64 {
        self.au_hours.mul_spec(self.escalated_rate(rate, year)).mul_spec(grown_by(self.aic))
    }

    /// A maintenance event falls due in the year in which the hours since
    /// new first reach its threshold.
    pub open spec fn fires(self, threshold: Binary64, year: int) -> bool {
        threshold.le_spec(self.tsn(year)) && (year == 1 || self.tsn(year - 1).lt_spec(threshold))
    }

    /// The maintenance cost of a year.
    pub open spec fn cost(self, year: int) -> Binary64 {
        let hsi = if self.fires(self.hsi_tsn, year) {
            self.hsi_cost
        } else {
            zero()
        };
        let overhaul = if self.fires(self.overhaul_tsn, year) {
            self.overhaul_cost
        } else {
            zero()
        };
        hsi.add_spec(overhaul)
    }

    /// The cumulative profit after a number of years, or the first quantity,
    /// in the order of the years and within a year in the order escalated
    /// rate, revenue, cumulative profit, that was not finite.
    pub open spec fn profit_through(self, rate: Binary64, years: int) -> Result<
        Binary64,
        ComputationError,
    >
        decreases years,
    {
        if years <= 0 {
            Ok(zero())
        } else {
            match self.profit_through(rate, years - 1) {
                Err(e) => Err(e),
                Ok(before) => {
                    let after = before.add_spec(
                        self.revenue(rate, years).sub_spec(self.cost(years)),
                    );
                    if !self.escalated_rate(rate, years).is_finite_spec() {
                        Err(ComputationError::Overflow(Quantity::EscalatedRate))
                    } else if !self.revenue(rate, years).is_finite_spec() {
                        Err(ComputationError::Overflow(Quantity::Revenue))
                    } else if !after.is_finite_spec() {
                        Err(ComputationError::Overflow(Quantity::CumulativeProfit))
                    } else {
                        Ok(after)
                    }
                },
            }
        }
    }

    /// A failure in one year is the result for every longer horizon.
    pub proof fn lemma_failure_persists(self, rate: Binary64, failed: int, years: int)
        requires
            failed <= years,
            self.profit_through(rate, failed) is Err,
        ensures
            self.profit_through(rate, years) == self.profit_through(rate, failed),
        decreases years - failed,
    {
        if failed < years {
            self.lemma_failure_persists(rate, failed, years - 1);
        }
    }
}

/// The cumulative profit over the horizon of `params` at the billing rate
/// `rate`; for a horizon of no years, zero.
pub fn calculate_financials(rate: Binary64, params: &FinancialParams) -> (r: Result<
    Binary64,
    ComputationError,
>)
    ensures
        r == params.profit_through(rate, params.num_years as int),
        r matches Ok(profit) ==> profit.is_finite_spec(),
{
    let one = Binary64::one();
    let hundred = Binary64::hundred();
    let zero = Binary64::zero();
    let escalation = one.add(params.rate_escalation.div(hundred));
    let surcharge = one.add(params.aic.div(hundred));
    let mut cumulative = zero;
    let mut previous_tsn = params.initial_tsn;
    let mut year: i32 = 0;
    while year < params.num_years
        invariant
            0 <= year,
            year <= params.num_years || year == 0,
            params.profit_through(rate, year as int) == Ok::<Binary64, ComputationError>(
                cumulative,
            ),
            cumulative.is_finite_spec(),
            year >= 1 ==> previous_tsn == params.tsn(year as int),
            escalation == grown_by(params.rate_escalation),
            surcharge == grown_by(params.aic),
            zero == crate::binary64::zero(),
        decreases params.num_years - year,
    {
        year = year + 1;
        let tsn = params.initial_tsn.add(params.au_hours.mul(Binary64::from_i32(year)));
        let escalated = rate.mul(escalation.powi(year - 1));
        if !escalated.is_finite() {
            proof {
                params.lemma_failure_persists(rate, year as int, params.num_years as int);
            }
            return Err(ComputationError::Overflow(Quantity::EscalatedRate));
        }
        let revenue = params.au_hours.mul(escalated).mul(surcharge);
        if !revenue.is_finite() {
            proof {
                params.lemma_failure_persists(rate, year as int, params.num_years as int);
            }
            return Err(ComputationError::Overflow(Quantity::Revenue));
        }
        let hsi = tsn.ge(params.hsi_tsn) && (year == 1 || previous_tsn.lt(params.hsi_tsn));
        let overhaul = tsn.ge(params.overhaul_tsn) && (year == 1 || previous_tsn.lt(
            params.overhaul_tsn,
        ));
        let hsi_cost = if hsi {
            params.hsi_cost
        } else {
            zero
        };
        let overhaul_cost = if overhaul {
            params.overhaul_cost
        } else {
            zero
        };
        let cost = hsi_cost.add(overhaul_cost);
        cumulative = cumulative.add(revenue.sub(cost));
        if !cumulative.is_finite() {
            proof {
                params.lemma_failure_persists(rate, year as int, params.num_years as int);
            }
            return Err(ComputationError::Overflow(Quantity::CumulativeProfit));
        }
        previous_tsn = tsn;
    }
    Ok(cumulative)
}

} // verus!
