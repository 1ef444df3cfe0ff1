//! Newton's method on a function that may fail.

use vstd::prelude::*;
use crate::binary64::{zero, Binary64};
use crate::errors::{ComputationError, FinancialError, SolverError};

verus! {

/// The iterate that follows `x`, from the value `v` of the function and the
/// value `dv` of its derivative there.
pub open spec fn newton_step(x: Binary64, v: Binary64, dv: Binary64) -> Binary64 {
    x.sub_spec(v.div_spec(dv))
}

/// A value close enough to zero to stop at.
pub open spec fn within(v: Binary64, xtol: Binary64) -> bool {
    v.abs_spec().lt_spec(xtol)
}

/// `r` is a result that the search may return when it stands at the iterate
/// `x` with `used` iterations behind it. It evaluates `f` at `x`: a failure
/// of `f` is the result; a value within `xtol` of zero ends the search at
/// `x`, this iteration counted. Otherwise it evaluates `df` at `x`: a
/// failure of `df` is the result, a zero is `ZeroDerivative`, and any other
/// value leads to the next iterate. With no iteration left the result is
/// `NotConverged`.
pub open spec fn newton_outcome<F, G>(
    f: F,
    df: G,
    x: Binary64,
    xtol: Binary64,
    used: nat,
    max_iter: nat,
    r: Result<(Binary64, usize), FinancialError>,
) -> bool where
    F: Fn(Binary64) -> Result<Binary64, ComputationError>,
    G: Fn(Binary64) -> Result<Binary64, ComputationError>,

    decreases max_iter - used,
{
    if used >= max_iter {
        r == Err::<(Binary64, usize), FinancialError>(
            FinancialError::Solver(SolverError::NotConverged(max_iter as usize)),
        )
    } else {
        exists|fx: Result<Binary64, ComputationError>| #[trigger]
            call_ensures(f, (x,), fx) && match fx {
                Err(e) => r == Err::<(Binary64, usize), FinancialError>(
                    FinancialError::Computation(e),
                ),
                Ok(v) => if within(v, xtol) {
                    r == Ok::<(Binary64, usize), FinancialError>((x, (used + 1) as usize))
                } else {
                    exists|dfx: Result<Binary64, ComputationError>| #[trigger]
                        call_ensures(df, (x,), dfx) && match dfx {
                            Err(e) => r == Err::<(Binary64, usize), FinancialError>(
                                FinancialError::Computation(e),
                            ),
                            Ok(dv) => if dv.same_number_spec(zero()) {
                                r == Err::<(Binary64, usize), FinancialError>(
                                    FinancialError::Solver(SolverError::ZeroDerivative),
                                )
                            } else {
                                newton_outcome(
                                    f,
                                    df,
                                    newton_step(x, v, dv),
                                    xtol,
                                    used + 1,
                                    max_iter,
                                    r,
                                )
                            },
                        }
                },
            }
    }
}

/// Searches for a root of `f` from `x0` by Newton's method with the
/// derivative `df`, for at most `max_iter` iterations, and returns the
/// iterate at which `f` was within `xtol` of zero together with the number
/// of iterations used.
pub fn newton_raphson<F, G>(f: F, df: G, x0: Binary64, xtol: Binary64, max_iter: usize) -> (r:
    Result<(Binary64, usize), FinancialError>) where
    F: Fn(Binary64) -> Result<Binary64, ComputationError>,
    G: Fn(Binary64) -> Result<Binary64, ComputationError>,

    requires
        forall|x: Binary64| call_requires(f, (x,)),
        forall|x: Binary64| call_requires(df, (x,)),
    ensures
        newton_outcome(f, df, x0, xtol, 0, max_iter as nat, r),
{
    let zero = Binary64::zero();
    let mut x = x0;
    let mut i: usize = 0;
    while i < max_iter
        invariant
            i <= max_iter,
            zero == crate::binary64::zero(),
            forall|x: Binary64| call_requires(f, (x,)),
            forall|x: Binary64| call_requires(df, (x,)),
            forall|r: Result<(Binary64, usize), FinancialError>| #[trigger]
                newton_outcome(f, df, x, xtol, i as nat, max_iter as nat, r) ==> newton_outcome(
                    f,
                    df,
                    x0,
                    xtol,
                    0,
                    max_iter as nat,
                    r,
                ),
        decreases max_iter - i,
    {
        let fx = f(x);
        let v = match fx {
            Ok(v) => v,
            Err(e) => {
                let r = Err(FinancialError::Computation(e));
                assert(newton_outcome(f, df, x, xtol, i as nat, max_iter as nat, r));
                return r;
            },
        };
        if v.abs().lt(xtol) {
            let r = Ok((x, i + 1));
            assert(newton_outcome(f, df, x, xtol, i as nat, max_iter as nat, r));
            return r;
        }
        let dfx = df(x);
        let dv = match dfx {
            Ok(dv) => dv,
            Err(e) => {
                let r = Err(FinancialError::Computation(e));
                assert(newton_outcome(f, df, x, xtol, i as nat, max_iter as nat, r));
                return r;
            },
        };
        if dv.same_number(zero) {
            let r = Err(FinancialError::Solver(SolverError::ZeroDerivative));
            assert(newton_outcome(f, df, x, xtol, i as nat, max_iter as nat, r));
            return r;
        }
        let next = x.sub(v.div(dv));
        assert forall|r: Result<(Binary64, usize), FinancialError>| #[trigger]
            newton_outcome(
                f,
                df,
                next,
                xtol,
                (i + 1) as nat,
                max_iter as nat,
                r,
            ) implies newton_outcome(f, df, x0, xtol, 0, max_iter as nat, r) by {
            assert(call_ensures(f, (x,), fx));
            assert(call_ensures(df, (x,), dfx));
            assert(newton_outcome(f, df, x, xtol, i as nat, max_iter as nat, r));
        }
        x = next;
        i = i + 1;
    }
    let r = Err(FinancialError::Solver(SolverError::NotConverged(max_iter)));
    assert(newton_outcome(f, df, x, xtol, i as nat, max_iter as nat, r));
    r
}

} // verus!
