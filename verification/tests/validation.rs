use goal_seek::binary64::Binary64;
use goal_seek::params::{FinancialParams, ParamField, ValidationError};

fn b(x: f64) -> Binary64 {
    Binary64::from_bits(x.to_bits())
}

fn base() -> FinancialParams {
    FinancialParams {
        num_years: 10,
        au_hours: b(450.0),
        initial_tsn: b(100.0),
        rate_escalation: b(5.0),
        aic: b(10.0),
        hsi_tsn: b(1000.0),
        overhaul_tsn: b(3000.0),
        hsi_cost: b(50000.0),
        overhaul_cost: b(100000.0),
    }
}

fn rejected_for(p: FinancialParams, field: ParamField) -> bool {
    p.validate() == Err(ValidationError { field })
}

#[test]
fn accepts_inputs_inside_their_domains() {
    assert_eq!(base().validate(), Ok(()));
}

#[test]
fn rejects_zero_years() {
    let mut p = base();
    p.num_years = 0;
    assert!(rejected_for(p, ParamField::NumYears));
    p.num_years = -3;
    assert!(rejected_for(p, ParamField::NumYears));
}

#[test]
fn rejects_negative_hours() {
    let mut p = base();
    p.au_hours = b(-1.0);
    assert!(rejected_for(p, ParamField::AuHours));
    p.au_hours = b(0.0);
    assert!(rejected_for(p, ParamField::AuHours));
}

#[test]
fn rejects_negative_initial_tsn() {
    let mut p = base();
    p.initial_tsn = b(-1.0);
    assert!(rejected_for(p, ParamField::InitialTsn));
}

#[test]
fn rejects_negative_escalation() {
    let mut p = base();
    p.rate_escalation = b(-1.0);
    assert!(rejected_for(p, ParamField::RateEscalation));
}

#[test]
fn rejects_surcharge_outside_zero_to_hundred() {
    let mut p = base();
    p.aic = b(101.0);
    assert!(rejected_for(p, ParamField::Aic));
    p.aic = b(-0.5);
    assert!(rejected_for(p, ParamField::Aic));
    p.aic = b(100.00000000000001);
    assert!(rejected_for(p, ParamField::Aic));
}

#[test]
fn rejects_zero_hsi_threshold() {
    let mut p = base();
    p.hsi_tsn = b(0.0);
    assert!(rejected_for(p, ParamField::HsiTsn));
}

#[test]
fn rejects_zero_overhaul_threshold() {
    let mut p = base();
    p.overhaul_tsn = b(0.0);
    assert!(rejected_for(p, ParamField::OverhaulTsn));
}

#[test]
fn rejects_negative_hsi_cost() {
    let mut p = base();
    p.hsi_cost = b(-1.0);
    assert!(rejected_for(p, ParamField::HsiCost));
}

#[test]
fn rejects_negative_overhaul_cost() {
    let mut p = base();
    p.overhaul_cost = b(-1.0);
    assert!(rejected_for(p, ParamField::OverhaulCost));
}

#[test]
fn accepts_the_ends_of_each_domain() {
    let mut p = base();
    p.num_years = 1;
    p.au_hours = b(f64::from_bits(1));
    p.initial_tsn = b(0.0);
    p.rate_escalation = b(-0.0);
    p.aic = b(100.0);
    p.hsi_tsn = b(f64::INFINITY);
    p.overhaul_tsn = b(f64::MIN_POSITIVE);
    p.hsi_cost = b(0.0);
    p.overhaul_cost = b(-0.0);
    assert_eq!(p.validate(), Ok(()));
    p.aic = b(0.0);
    assert_eq!(p.validate(), Ok(()));
    p.aic = b(-0.0);
    assert_eq!(p.validate(), Ok(()));
}

#[test]
fn rejects_a_nan_in_any_field() {
    let fields = [
        ParamField::AuHours,
        ParamField::InitialTsn,
        ParamField::RateEscalation,
        ParamField::Aic,
        ParamField::HsiTsn,
        ParamField::OverhaulTsn,
        ParamField::HsiCost,
        ParamField::OverhaulCost,
    ];
    for (i, &field) in fields.iter().enumerate() {
        let mut p = base();
        let nan = b(f64::NAN);
        match i {
            0 => p.au_hours = nan,
            1 => p.initial_tsn = nan,
            2 => p.rate_escalation = nan,
            3 => p.aic = nan,
            4 => p.hsi_tsn = nan,
            5 => p.overhaul_tsn = nan,
            6 => p.hsi_cost = nan,
            _ => p.overhaul_cost = nan,
        }
        assert!(rejected_for(p, field));
    }
}

#[test]
fn names_the_first_field_outside_its_domain() {
    let mut p = base();
    p.overhaul_cost = b(-1.0);
    p.aic = b(250.0);
    p.hsi_tsn = b(-4.0);
    assert!(rejected_for(p, ParamField::Aic));
    p.num_years = 0;
    assert!(rejected_for(p, ParamField::NumYears));
}
