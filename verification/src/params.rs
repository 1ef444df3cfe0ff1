//! The nine inputs of a projection and the constraints on them.

use vstd::prelude::*;
use crate::binary64::{Binary64, unit};

verus! {

/// The inputs of one projection.
#[derive(Clone, Copy, Debug)]
pub struct FinancialParams {
    /// Projection horizon in years.
    pub num_years: i32,
    /// Hours of use per year.
    pub au_hours: Binary64,
    /// Hours since new at the start.
    pub initial_tsn: Binary64,
    /// Yearly escalation of the billing rate, in percent.
    pub rate_escalation: Binary64,
    /// Surcharge for additional inspections, in percent of the revenue.
    pub aic: Binary64,
    /// Hours since new at which the hot-section inspection falls due.
    pub hsi_tsn: Binary64,
    /// Hours since new at which the overhaul falls due.
    pub overhaul_tsn: Binary64,
    /// Cost charged in the year of the hot-section inspection.
    pub hsi_cost: Binary64,
    /// Cost charged in the year of the overhaul.
    pub overhaul_cost: Binary64,
}

/// Names one input of a projection.
#[derive(Clone, Copy, Debug, PartialEq, Eq, Structural)]
pub enum ParamField {
    NumYears,
    AuHours,
    InitialTsn,
    RateEscalation,
    Aic,
    HsiTsn,
    OverhaulTsn,
    HsiCost,
    OverhaulCost,
}

/// An input is outside its domain; `field` names the first such input in the
/// order of `ParamField`.
#[derive(Clone, Copy, Debug, PartialEq, Eq, Structural)]
pub struct ValidationError {
    pub field: ParamField,
}

/// A number, not a NaN, that is greater than zero.
pub open spec fn positive(x: Binary64) -> bool {
    !x.is_nan_spec() && x.value() > 0
}

/// A number, not a NaN, that is zero or greater. Negative zero is one.
pub open spec fn non_negative(x: Binary64) -> bool {
    !x.is_nan_spec() && x.value() >= 0
}

/// A number, not a NaN, from 0 to 100.
pub open spec fn percentage(x: Binary64) -> bool {
    !x.is_nan_spec() && 0 <= x.value() <= 100 * unit()
}

impl FinancialParams {
    /// Every input lies in its domain.
    pub open spec fn valid(self) -> bool {
        &&& self.num_years > 0
        &&& positive(self.au_hours)
        &&& non_negative(self.initial_tsn)
        &&& non_negative(self.rate_escalation)
        &&& percentage(self.aic)
        &&& positive(self.hsi_tsn)
        &&& positive(self.overhaul_tsn)
        &&& non_negative(self.hsi_cost)
        &&& non_negative(self.overhaul_cost)
    }

    /// The first input, in the order of `ParamField`, that lies outside its
    /// domain.
    pub open spec fn first_violation(self) -> Option<ParamField> {
        if self.num_years <= 0 {
            Some(ParamField::NumYears)
        } else if !positive(self.au_hours) {
            Some(ParamField::AuHours)
        } else if !non_negative(self.initial_tsn) {
            Some(ParamField::InitialTsn)
        } else if !non_negative(self.rate_escalation) {
            Some(ParamField::RateEscalation)
        } else if !percentage(self.aic) {
            Some(ParamField::Aic)
        } else if !positive(self.hsi_tsn) {
            Some(ParamField::HsiTsn)
        } else if !positive(self.overhaul_tsn) {
            Some(ParamField::OverhaulTsn)
        } else if !non_negative(self.hsi_cost) {
            Some(ParamField::HsiCost)
        } else if !non_negative(self.overhaul_cost) {
            Some(ParamField::OverhaulCost)
        } else {
            None
        }
    }

    /// What `validate` returns: nothing where every input lies in its
    /// domain, and otherwise the name of the first that does not.
    pub open spec fn validate_spec(self) -> Result<(), ValidationError> {
        match self.first_violation() {
            Some(field) => Err(ValidationError { field }),
            None => Ok(()),
        }
    }

    /// Accepts the inputs when each lies in its domain, and otherwise names
    /// the first that does not.
    pub fn validate(&self) -> (r: Result<(), ValidationError>)
        ensures
            r == self.validate_spec(),
            r is Ok <==> self.valid(),
    {
        let zero = Binary64::zero();
        let hundred = Binary64::hundred();
        if self.num_years <= 0 {
            Err(ValidationError { field: ParamField::NumYears })
        } else if !self.au_hours.gt(zero) {
            Err(ValidationError { field: ParamField::AuHours })
        } else if !self.initial_tsn.ge(zero) {
            Err(ValidationError { field: ParamField::InitialTsn })
        } else if !self.rate_escalation.ge(zero) {
            Err(ValidationError { field: ParamField::RateEscalation })
        } else if !(self.aic.ge(zero) && self.aic.le(hundred)) {
            Err(ValidationError { field: ParamField::Aic })
        } else if !self.hsi_tsn.gt(zero) {
            Err(ValidationError { field: ParamField::HsiTsn })
        } else if !self.overhaul_tsn.gt(zero) {
            Err(ValidationError { field: ParamField::OverhaulTsn })
        } else if !self.hsi_cost.ge(zero) {
            Err(ValidationError { field: ParamField::HsiCost })
        } else if !self.overhaul_cost.ge(zero) {
            Err(ValidationError { field: ParamField::OverhaulCost })
        } else {
            Ok(())
        }
    }
}

} // verus!
