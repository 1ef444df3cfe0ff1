//! The hours since new never fall from one year to the next, so each
//! maintenance event falls due in one year at most.

use vstd::prelude::*;
use vstd::arithmetic::power2::*;
use crate::binary64::{Binary64, unit};
use crate::params::{positive, non_negative, FinancialParams};
use crate::rounding::{lemma_pow2_52_53, lemma_round_units_monotone};
use crate::values::{
    lemma_top,
    lemma_from_int_value,
    lemma_mul_value,
    lemma_add_value,
    lemma_add_monotone,
};

verus! {

/// The hours since new at the end of a year are a number, and no fewer than
/// at the end of an earlier year.
pub proof fn lemma_tsn_ordered(params: FinancialParams, earlier: int, later: int)
    requires
        positive(params.au_hours),
        non_negative(params.initial_tsn),
        1 <= earlier <= later <= i32::MAX,
    ensures
        params.tsn(earlier).le_spec(params.tsn(later)),
{
    lemma_pow2_52_53();
    lemma_pow2_pos(1074);
    lemma_pow2_pos(2098);
    let au = params.au_hours;
    let start = params.initial_tsn;
    let y1 = Binary64::from_int_spec(earlier);
    let y2 = Binary64::from_int_spec(later);
    lemma_from_int_value(earlier);
    lemma_from_int_value(later);
    lemma_top(au);
    lemma_top(start);
    lemma_top(y1);
    lemma_top(y2);
    assert(y1.magnitude() > 0 && y2.magnitude() > 0) by (nonlinear_arith)
        requires
            y1.magnitude() == earlier * unit(),
            y2.magnitude() == later * unit(),
            1 <= earlier <= later,
            unit() > 0,
    ;
    let prod1 = au.mul_spec(y1);
    let prod2 = au.mul_spec(y2);
    let t1 = params.tsn(earlier);
    let t2 = params.tsn(later);
    assert(t1 == start.add_spec(prod1));
    assert(t2 == start.add_spec(prod2));
    if au.is_infinite_spec() {
        assert(prod1 == prod2);
        assert(!t1.is_nan_spec());
    } else {
        lemma_mul_value(au, y1);
        lemma_mul_value(au, y2);
        let a = au.magnitude();
        assert(a * y1.magnitude() <= a * y2.magnitude()) by (nonlinear_arith)
            requires
                y1.magnitude() == earlier * unit(),
                y2.magnitude() == later * unit(),
                earlier <= later,
                unit() > 0,
        ;
        lemma_round_units_monotone(a * y1.magnitude(), a * y2.magnitude(), unit());
        lemma_top(prod1);
        lemma_top(prod2);
        assert(prod1.magnitude() <= prod2.magnitude());
        if start.is_infinite_spec() {
            assert(t1 == start);
            assert(t2 == start);
        } else if prod2.is_infinite_spec() {
            assert(t2 == prod2);
            if !prod1.is_infinite_spec() {
                lemma_add_value(start, prod1);
            }
            lemma_top(t1);
        } else {
            lemma_add_monotone(start, start, prod1, prod2);
        }
    }
}

impl FinancialParams {
    /// The hours since new at the end of a year have reached a threshold.
    pub open spec fn reached(self, threshold: Binary64, year: int) -> bool {
        threshold.le_spec(self.tsn(year))
    }
}

/// Where the hours since new have reached a threshold by some year, the
/// event falls due in that year or an earlier one.
pub proof fn lemma_first_year_reached(params: FinancialParams, threshold: Binary64, year: int) -> (first:
    int)
    requires
        positive(params.au_hours),
        non_negative(params.initial_tsn),
        1 <= year <= i32::MAX,
        params.reached(threshold, year),
    ensures
        1 <= first <= year,
        params.fires(threshold, first),
    decreases year,
{
    if year == 1 {
        1
    } else if params.tsn(year - 1).lt_spec(threshold) {
        year
    } else {
        lemma_tsn_ordered(params, year - 1, year);
        lemma_first_year_reached(params, threshold, year - 1)
    }
}

/// An event does not fall due in two different years.
pub proof fn lemma_fires_in_one_year_at_most(
    params: FinancialParams,
    threshold: Binary64,
    one: int,
    other: int,
)
    requires
        positive(params.au_hours),
        non_negative(params.initial_tsn),
        1 <= one <= i32::MAX,
        1 <= other <= i32::MAX,
        params.fires(threshold, one),
        params.fires(threshold, other),
    ensures
        one == other,
{
    if one < other {
        lemma_tsn_ordered(params, one, other - 1);
    } else if other < one {
        lemma_tsn_ordered(params, other, one - 1);
    }
}

/// Over a horizon, a maintenance event falls due in exactly one year when
/// the hours since new reach its threshold in some year of the horizon, and
/// in no year when they reach it in none.
pub proof fn lemma_event_fires_once(params: FinancialParams, threshold: Binary64, years: int)
    requires
        params.valid(),
        1 <= years <= i32::MAX,
    ensures
        (forall|y: int| 1 <= y <= years ==> !#[trigger] params.reached(threshold, y)) ==> (forall|
            y: int,
        |
            1 <= y <= years ==> !#[trigger] params.fires(threshold, y)),
        (exists|y: int| 1 <= y <= years && #[trigger] params.reached(threshold, y)) ==> (exists|
            y: int,
        |
            1 <= y <= years && #[trigger] params.fires(threshold, y) && (forall|z: int|
                1 <= z <= years && #[trigger] params.fires(threshold, z) ==> z == y)),
{
    if exists|y: int| 1 <= y <= years && #[trigger] params.reached(threshold, y) {
        let y0 = choose|y: int| 1 <= y <= years && #[trigger] params.reached(threshold, y);
        let first = lemma_first_year_reached(params, threshold, y0);
        assert forall|z: int| 1 <= z <= years && #[trigger] params.fires(
            threshold,
            z,
        ) implies z == first by {
            lemma_fires_in_one_year_at_most(params, threshold, z, first);
        }
        assert(1 <= first <= years && params.fires(threshold, first));
    }
    assert forall|y: int| 1 <= y <= years && #[trigger] params.fires(
        threshold,
        y,
    ) implies params.reached(threshold, y) by {}
}

} // verus!
