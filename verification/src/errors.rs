//! What can go wrong after the inputs were accepted.

use vstd::prelude::*;

verus! {

/// Names a quantity of the projection.
#[derive(Clone, Copy, Debug, PartialEq, Eq, Structural)]
pub enum Quantity {
    EscalatedRate,
    Revenue,
    CumulativeProfit,
}

/// A quantity of the projection was an infinity or a NaN.
#[derive(Clone, Copy, Debug, PartialEq, Eq, Structural)]
pub enum ComputationError {
    Overflow(Quantity),
}

/// The search for a root stopped without one.
#[derive(Clone, Copy, Debug, PartialEq, Eq, Structural)]
pub enum SolverError {
    /// The derivative was zero where a step had to be taken.
    ZeroDerivative,
    /// No iterate was close enough within the given number of iterations.
    NotConverged(usize),
}

/// Why a search returned no rate: the function searched, or its derivative,
/// failed, or the search itself did.
#[derive(Clone, Copy, Debug, PartialEq, Eq, Structural)]
pub enum FinancialError {
    Computation(ComputationError),
    Solver(SolverError),
}

} // verus!
