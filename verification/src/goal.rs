//! The billing rate at which the cumulative profit meets a target.

use vstd::prelude::*;
use crate::binary64::{zero, Binary64};
use crate::errors::{ComputationError, FinancialError, SolverError};
use crate::params::{FinancialParams, ValidationError};
use crate::projection::calculate_financials;
use crate::solver::{newton_outcome, newton_raphson, newton_step, within};

verus! {

/// The encoding of the step of the finite difference, 1e-6.
pub const EPSILON_BITS: u64 = 0x3EB0_C6F7_A0B5_ED8D;

/// The encoding of the tolerance on the objective, 1e-8.
pub const XTOL_BITS: u64 = 0x3E45_798E_E230_8C3A;

/// The number of iterations that a search may use.
pub const MAX_ITER: usize = 100;

pub open spec fn epsilon() -> Binary64 {
    Binary64 { bits: EPSILON_BITS }
}

pub open spec fn xtol() -> Binary64 {
    Binary64 { bits: XTOL_BITS }
}

/// The cumulative profit at `rate` less the target.
pub open spec fn objective_spec(rate: Binary64, params: FinancialParams, target: Binary64) -> Result<
    Binary64,
    ComputationError,
> {
    match params.profit_through(rate, params.num_years as int) {
        Ok(profit) => Ok(profit.sub_spec(target)),
        Err(e) => Err(e),
    }
}

/// The forward difference quotient of the objective at `rate`, with the step
/// `epsilon()`. The objective is evaluated at the far point first, and a
/// failure there is the result.
pub open spec fn derivative_spec(rate: Binary64, params: FinancialParams, target: Binary64) -> Result<
    Binary64,
    ComputationError,
> {
    match objective_spec(rate.add_spec(epsilon()), params, target) {
        Err(e) => Err(e),
        Ok(ahead) => match objective_spec(rate, params, target) {
            Err(e) => Err(e),
            Ok(here) => Ok(ahead.sub_spec(here).div_spec(epsilon())),
        },
    }
}

/// The result of the search that stands at the iterate `x` with `used`
/// iterations behind it and may use `max_iter` in all.
pub open spec fn search_from(
    params: FinancialParams,
    target: Binary64,
    x: Binary64,
    used: nat,
    max_iter: nat,
) -> Result<(Binary64, usize), FinancialError>
    decreases max_iter - used,
{
    if used >= max_iter {
        Err(FinancialError::Solver(SolverError::NotConverged(max_iter as usize)))
    } else {
        match objective_spec(x, params, target) {
            Err(e) => Err(FinancialError::Computation(e)),
            Ok(v) => if within(v, xtol()) {
                Ok((x, (used + 1) as usize))
            } else {
                match derivative_spec(x, params, target) {
                    Err(e) => Err(FinancialError::Computation(e)),
                    Ok(dv) => if dv.same_number_spec(zero()) {
                        Err(FinancialError::Solver(SolverError::ZeroDerivative))
                    } else {
                        search_from(params, target, newton_step(x, v, dv), used + 1, max_iter)
                    },
                }
            },
        }
    }
}

/// The result of a goal seek.
pub open spec fn goal_seek_spec(target: Binary64, params: FinancialParams, guess: Binary64) -> Result<
    (Binary64, usize),
    FinancialError,
> {
    search_from(params, target, guess, 0, MAX_ITER as nat)
}

/// With an objective and a derivative that are functions of their argument,
/// the search has one result.
pub proof fn lemma_search_is_determined<F, G>(
    f: F,
    df: G,
    params: FinancialParams,
    target: Binary64,
    x: Binary64,
    used: nat,
    max_iter: nat,
    r: Result<(Binary64, usize), FinancialError>,
) where
    F: Fn(Binary64) -> Result<Binary64, ComputationError>,
    G: Fn(Binary64) -> Result<Binary64, ComputationError>,

    requires
        forall|a: Binary64, out: Result<Binary64, ComputationError>| #[trigger]
            call_ensures(f, (a,), out) ==> out == objective_spec(a, params, target),
        forall|a: Binary64, out: Result<Binary64, ComputationError>| #[trigger]
            call_ensures(df, (a,), out) ==> out == derivative_spec(a, params, target),
        newton_outcome(f, df, x, xtol(), used, max_iter, r),
    ensures
        r == search_from(params, target, x, used, max_iter),
    decreases max_iter - used,
{
    if used < max_iter {
        let fx = choose|fx: Result<Binary64, ComputationError>| #[trigger]
            call_ensures(f, (x,), fx) && match fx {
                Err(e) => r == Err::<(Binary64, usize), FinancialError>(
                    FinancialError::Computation(e),
                ),
                Ok(v) => if within(v, xtol()) {
                    r == Ok::<(Binary64, usize), FinancialError>((x, (used + 1) as usize))
                } else {
                    exists|dfx: Result<Binary64, ComputationError>| #[trigger]
                        call_ensures(df, (x,), dfx) && match dfx {
                            Err(e) => r == Err::<(Binary64, usize), FinancialError>(
                                FinancialError::Computation(e),
                            ),
                            Ok(dv) => if dv.same_number_spec(zero()) {
                                r == Err::<(Binary64, usize), FinancialError>(
                                    FinancialError::Solver(SolverError::ZeroDerivative),
                                )
                            } else {
                                newton_outcome(
                                    f,
                                    df,
                                    newton_step(x, v, dv),
                                    xtol(),
                                    used + 1,
                                    max_iter,
                                    r,
                                )
                            },
                        }
                },
            };
        assert(fx == objective_spec(x, params, target));
        if let Ok(v) = fx {
            if !within(v, xtol()) {
                let dfx = choose|dfx: Result<Binary64, ComputationError>| #[trigger]
                    call_ensures(df, (x,), dfx) && match dfx {
                        Err(e) => r == Err::<(Binary64, usize), FinancialError>(
                            FinancialError::Computation(e),
                        ),
                        Ok(dv) => if dv.same_number_spec(zero()) {
                            r == Err::<(Binary64, usize), FinancialError>(
                                FinancialError::Solver(SolverError::ZeroDerivative),
                            )
                        } else {
                            newton_outcome(
                                f,
                                df,
                                newton_step(x, v, dv),
                                xtol(),
                                used + 1,
                                max_iter,
                                r,
                            )
                        },
                    };
                assert(dfx == derivative_spec(x, params, target));
                if let Ok(dv) = dfx {
                    if !dv.same_number_spec(zero()) {
                        lemma_search_is_determined(
                            f,
                            df,
                            params,
                            target,
                            newton_step(x, v, dv),
                            used + 1,
                            max_iter,
                            r,
                        );
                    }
                }
            }
        }
    }
}

/// A search that returns a rate used between one and `max_iter` iterations,
/// and the cumulative profit at that rate is within the tolerance of the
/// target.
pub proof fn lemma_search_meets_target(
    params: FinancialParams,
    target: Binary64,
    x: Binary64,
    used: nat,
    max_iter: nat,
)
    requires
        max_iter <= usize::MAX,
    ensures
        search_from(params, target, x, used, max_iter) matches Ok((rate, iterations)) ==> {
            &&& used < iterations <= max_iter
            &&& params.profit_through(rate, params.num_years as int) matches Ok(profit)
            &&& within(profit.sub_spec(target), xtol())
        },
    decreases max_iter - used,
{
    if used < max_iter {
        if let Ok(v) = objective_spec(x, params, target) {
            if !within(v, xtol()) {
                if let Ok(dv) = derivative_spec(x, params, target) {
                    if !dv.same_number_spec(zero()) {
                        lemma_search_meets_target(
                            params,
                            target,
                            newton_step(x, v, dv),
                            used + 1,
                            max_iter,
                        );
                    }
                }
            }
        }
    }
}

/// The cumulative profit at `rate` less the target.
pub fn objective(rate: Binary64, params: &FinancialParams, target_profit: Binary64) -> (r: Result<
    Binary64,
    ComputationError,
>)
    ensures
        r == objective_spec(rate, *params, target_profit),
{
    match calculate_financials(rate, params) {
        Ok(profit) => Ok(profit.sub(target_profit)),
        Err(e) => Err(e),
    }
}

/// The forward difference quotient of the objective at `rate`.
pub fn derivative(rate: Binary64, params: &FinancialParams, target_profit: Binary64) -> (r: Result<
    Binary64,
    ComputationError,
>)
    ensures
        r == derivative_spec(rate, *params, target_profit),
{
    let epsilon = Binary64 { bits: EPSILON_BITS };
    let ahead = match objective(rate.add(epsilon), params, target_profit) {
        Ok(v) => v,
        Err(e) => {
            return Err(e);
        },
    };
    let here = match objective(rate, params, target_profit) {
        Ok(v) => v,
        Err(e) => {
            return Err(e);
        },
    };
    Ok(ahead.sub(here).div(epsilon))
}

/// Searches from `initial_guess` for the billing rate at which the
/// cumulative profit is within the tolerance of `target_profit`, and returns
/// it with the number of iterations used.
pub fn goal_seek(target_profit: Binary64, params: &FinancialParams, initial_guess: Binary64) -> (r:
    Result<(Binary64, usize), FinancialError>)
    ensures
        r == goal_seek_spec(target_profit, *params, initial_guess),
        r matches Ok((rate, iterations)) ==> {
            &&& 1 <= iterations <= MAX_ITER
            &&& params.profit_through(rate, params.num_years as int) matches Ok(profit)
            &&& within(profit.sub_spec(target_profit), xtol())
        },
{
    let f = |rate: Binary64| -> (out: Result<Binary64, ComputationError>)
        ensures
            out == objective_spec(rate, *params, target_profit),
        { objective(rate, params, target_profit) };
    let df = |rate: Binary64| -> (out: Result<Binary64, ComputationError>)
        ensures
            out == derivative_spec(rate, *params, target_profit),
        { derivative(rate, params, target_profit) };
    let tolerance = Binary64 { bits: XTOL_BITS };
    let r = newton_raphson(f, df, initial_guess, tolerance, MAX_ITER);
    proof {
        lemma_search_is_determined(
            f,
            df,
            *params,
            target_profit,
            initial_guess,
            0,
            MAX_ITER as nat,
            r,
        );
        lemma_search_meets_target(*params, target_profit, initial_guess, 0, MAX_ITER as nat);
    }
    r
}

/// What a goal seek is asked.
#[derive(Clone, Copy, Debug)]
pub struct GoalSeekRequest {
    pub target_profit: Binary64,
    pub params: FinancialParams,
    pub initial_guess: Binary64,
}

/// What a goal seek found.
#[derive(Clone, Copy, Debug, PartialEq, Eq, Structural)]
pub struct GoalSeekResponse {
    pub optimal_rate: Binary64,
    pub iterations: usize,
    /// The cumulative profit at `optimal_rate`.
    pub final_cumulative_profit: Binary64,
}

/// Why a request was not answered with a rate.
#[derive(Clone, Copy, Debug, PartialEq, Eq, Structural)]
pub enum RequestError {
    /// An input was outside its domain; nothing was computed.
    Validation(ValidationError),
    /// A quantity of the projection was not finite.
    Computation(ComputationError),
    /// The search stopped without a rate.
    Solver(SolverError),
}

/// The answer to a request: the first input outside its domain; or else why
/// the search returned no rate; or else the rate found, the iterations used
/// and the cumulative profit at that rate, which the projection gives
/// wherever the search has stopped.
pub open spec fn answer_spec(request: GoalSeekRequest) -> Result<GoalSeekResponse, RequestError> {
    match request.params.validate_spec() {
        Err(e) => Err(RequestError::Validation(e)),
        Ok(_) => match goal_seek_spec(request.target_profit, request.params, request.initial_guess) {
            Err(FinancialError::Computation(e)) => Err(RequestError::Computation(e)),
            Err(FinancialError::Solver(e)) => Err(RequestError::Solver(e)),
            Ok((rate, iterations)) => Ok(
                GoalSeekResponse {
                    optimal_rate: rate,
                    iterations,
                    final_cumulative_profit: request.params.profit_through(
                        rate,
                        request.params.num_years as int,
                    )->Ok_0,
                },
            ),
        },
    }
}

/// Answers a request: checks the inputs, seeks the rate, and projects once
/// more at the rate found.
pub fn answer(request: &GoalSeekRequest) -> (r: Result<GoalSeekResponse, RequestError>)
    ensures
        r == answer_spec(*request),
        r is Ok ==> request.params.valid(),
        !request.params.valid() ==> r is Err && r->Err_0 is Validation,
        r matches Ok(found) ==> {
            &&& 1 <= found.iterations <= MAX_ITER
            &&& found.final_cumulative_profit.is_finite_spec()
            &&& within(found.final_cumulative_profit.sub_spec(request.target_profit), xtol())
        },
{
    match request.params.validate() {
        Err(e) => {
            return Err(RequestError::Validation(e));
        },
        Ok(_) => {},
    }
    match goal_seek(request.target_profit, &request.params, request.initial_guess) {
        Err(FinancialError::Computation(e)) => Err(RequestError::Computation(e)),
        Err(FinancialError::Solver(e)) => Err(RequestError::Solver(e)),
        Ok((rate, iterations)) => match calculate_financials(rate, &request.params) {
            Ok(profit) => Ok(
                GoalSeekResponse {
                    optimal_rate: rate,
                    iterations,
                    final_cumulative_profit: profit,
                },
            ),
            Err(e) => {
                // Not reached: the search stopped at `rate` because the
                // projection there gave a profit.
                assert(false);
                Err(RequestError::Computation(e))
            },
        },
    }
}

} // verus!
