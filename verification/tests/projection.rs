use goal_seek::binary64::Binary64;
use goal_seek::errors::{ComputationError, Quantity};
use goal_seek::params::FinancialParams;
use goal_seek::projection::calculate_financials;

fn b(x: f64) -> Binary64 {
    Binary64::from_bits(x.to_bits())
}

#[derive(Clone, Copy)]
struct Inputs {
    n: i32,
    au: f64,
    tsn0: f64,
    esc: f64,
    aic: f64,
    hsi: f64,
    ovh: f64,
    hsi_cost: f64,
    ovh_cost: f64,
}

fn scenario() -> Inputs {
    Inputs {
        n: 10,
        au: 450.0,
        tsn0: 100.0,
        esc: 5.0,
        aic: 10.0,
        hsi: 1000.0,
        ovh: 3000.0,
        hsi_cost: 50000.0,
        ovh_cost: 100000.0,
    }
}

fn params(i: Inputs) -> FinancialParams {
    FinancialParams {
        num_years: i.n,
        au_hours: b(i.au),
        initial_tsn: b(i.tsn0),
        rate_escalation: b(i.esc),
        aic: b(i.aic),
        hsi_tsn: b(i.hsi),
        overhaul_tsn: b(i.ovh),
        hsi_cost: b(i.hsi_cost),
        overhaul_cost: b(i.ovh_cost),
    }
}

// The same projection in the arithmetic of the machine.
fn in_hardware(rate: f64, i: Inputs) -> Result<f64, Quantity> {
    let mut cumulative = 0.0;
    let factor = 1.0 + i.esc / 100.0;
    let mut previous = i.tsn0;
    for year in 1..=i.n {
        let tsn = i.tsn0 + i.au * year as f64;
        let escalated = rate * factor.powi(year - 1);
        if !escalated.is_finite() {
            return Err(Quantity::EscalatedRate);
        }
        let revenue = i.au * escalated * (1.0 + i.aic / 100.0);
        if !revenue.is_finite() {
            return Err(Quantity::Revenue);
        }
        let hsi = tsn >= i.hsi && (year == 1 || previous < i.hsi);
        let overhaul = tsn >= i.ovh && (year == 1 || previous < i.ovh);
        let cost = if hsi { i.hsi_cost } else { 0.0 } + if overhaul { i.ovh_cost } else { 0.0 };
        cumulative += revenue - cost;
        if !cumulative.is_finite() {
            return Err(Quantity::CumulativeProfit);
        }
        previous = tsn;
    }
    Ok(cumulative)
}

fn agrees(rate: f64, i: Inputs) -> bool {
    let got = calculate_financials(b(rate), &params(i));
    match in_hardware(rate, i) {
        Ok(want) => got == Ok(b(want)),
        Err(q) => got == Err(ComputationError::Overflow(q)),
    }
}

fn next(state: &mut u64) -> u64 {
    *state = state
        .wrapping_mul(6364136223846793005)
        .wrapping_add(1442695040888963407);
    let mut z = *state;
    z ^= z >> 33;
    z = z.wrapping_mul(0xff51afd7ed558ccd);
    z ^= z >> 33;
    z
}

fn fraction(state: &mut u64) -> f64 {
    (next(state) >> 11) as f64 / 9007199254740992.0
}

#[test]
fn ten_year_scenario_gives_the_pinned_profit() {
    let got = calculate_financials(b(320.0), &params(scenario()));
    assert_eq!(got, Ok(Binary64::from_bits(0x413c_1ca2_2d79_3890)));
    assert_eq!(f64::from_bits(got.unwrap().to_bits()), 1842338.1776309349);
    assert!(agrees(320.0, scenario()));
}

#[test]
fn projection_is_repeatable() {
    let p = params(scenario());
    let first = calculate_financials(b(417.25), &p);
    for _ in 0..5 {
        assert_eq!(calculate_financials(b(417.25), &p), first);
    }
}

#[test]
fn one_year_without_events_is_hours_times_rate_with_surcharge() {
    let mut i = scenario();
    i.n = 1;
    assert_eq!(calculate_financials(b(320.0), &params(i)), Ok(b(158400.0)));
}

#[test]
fn no_years_give_zero() {
    let mut i = scenario();
    i.n = 0;
    assert_eq!(calculate_financials(b(320.0), &params(i)), Ok(b(0.0)));
    i.n = -7;
    assert_eq!(calculate_financials(b(320.0), &params(i)), Ok(b(0.0)));
}

#[test]
fn each_event_is_charged_in_the_year_its_threshold_is_reached() {
    // Hours since new are 550, 1000, 1450, ... 4600: the inspection falls
    // due in year 2 and the overhaul in year 7.
    let mut i = scenario();
    i.esc = 0.0;
    i.aic = 0.0;
    let yearly = 450.0 * 320.0;
    for n in 1..=10 {
        i.n = n;
        let mut want = yearly * n as f64;
        if n >= 2 {
            want -= 50000.0;
        }
        if n >= 7 {
            want -= 100000.0;
        }
        assert_eq!(calculate_financials(b(320.0), &params(i)), Ok(b(want)), "{} years", n);
    }
}

#[test]
fn an_event_in_the_first_year_is_charged_once() {
    let mut i = scenario();
    i.esc = 0.0;
    i.aic = 0.0;
    i.hsi = 500.0;
    i.ovh = 1.0e9;
    i.n = 4;
    let want = 4.0 * 450.0 * 320.0 - 50000.0;
    assert_eq!(calculate_financials(b(320.0), &params(i)), Ok(b(want)));
}

#[test]
fn an_event_never_reached_is_never_charged() {
    let mut i = scenario();
    i.esc = 0.0;
    i.aic = 0.0;
    i.hsi = 1.0e9;
    i.ovh = f64::INFINITY;
    let want = 10.0 * 450.0 * 320.0;
    assert_eq!(calculate_financials(b(320.0), &params(i)), Ok(b(want)));
}

#[test]
fn both_events_may_fall_in_one_year() {
    let mut i = scenario();
    i.esc = 0.0;
    i.aic = 0.0;
    i.hsi = 1400.0;
    i.ovh = 1450.0;
    i.n = 3;
    let want = 3.0 * 450.0 * 320.0 - 150000.0;
    assert_eq!(calculate_financials(b(320.0), &params(i)), Ok(b(want)));
}

#[test]
fn a_higher_rate_gives_a_higher_profit() {
    let p = params(scenario());
    let mut last = f64::NEG_INFINITY;
    for step in 0..200 {
        let rate = -500.0 + 7.5 * step as f64;
        let got = f64::from_bits(calculate_financials(b(rate), &p).unwrap().to_bits());
        assert!(got > last, "rate {}", rate);
        last = got;
    }
}

#[test]
fn rates_too_close_to_tell_apart_give_the_same_profit() {
    // Half of the smallest positive number rounds to zero, so the revenue at
    // that rate is the revenue at the rate zero.
    let i = Inputs {
        n: 1,
        au: 0.5,
        tsn0: 0.0,
        esc: 0.0,
        aic: 0.0,
        hsi: 1.0e9,
        ovh: 1.0e9,
        hsi_cost: 0.0,
        ovh_cost: 0.0,
    };
    assert_eq!(params(i).validate(), Ok(()));
    let smallest = f64::from_bits(1);
    assert!(0.0 < smallest);
    assert_eq!(calculate_financials(b(0.0), &params(i)), Ok(b(0.0)));
    assert_eq!(calculate_financials(b(smallest), &params(i)), Ok(b(0.0)));
}

#[test]
fn a_higher_rate_never_gives_a_lower_profit() {
    let mut state: u64 = 0x7777_1111_2222_3333;
    for _ in 0..500 {
        let i = Inputs {
            n: 1 + (next(&mut state) % 30) as i32,
            au: 1.0 + 2000.0 * fraction(&mut state),
            tsn0: 5000.0 * fraction(&mut state),
            esc: 12.0 * fraction(&mut state),
            aic: 100.0 * fraction(&mut state),
            hsi: 1.0 + 20000.0 * fraction(&mut state),
            ovh: 1.0 + 60000.0 * fraction(&mut state),
            hsi_cost: 1.0e5 * fraction(&mut state),
            ovh_cost: 1.0e6 * fraction(&mut state),
        };
        let rate = 2000.0 * fraction(&mut state) - 500.0;
        // The next number up, and one a little further.
        let up = f64::from_bits(if rate >= 0.0 { rate.to_bits() + 1 } else { rate.to_bits() - 1 });
        let further = rate + 1.0e-9;
        let p = params(i);
        let at = f64::from_bits(calculate_financials(b(rate), &p).unwrap().to_bits());
        let at_up = f64::from_bits(calculate_financials(b(up), &p).unwrap().to_bits());
        let at_further = f64::from_bits(calculate_financials(b(further), &p).unwrap().to_bits());
        assert!(rate < up && up <= further);
        assert!(at <= at_up, "rate {:e}", rate);
        assert!(at_up <= at_further, "rate {:e}", rate);
    }
}

#[test]
fn an_escalated_rate_past_the_largest_number_is_reported() {
    let mut i = scenario();
    i.au = 1.0e-3;
    i.esc = 100.0;
    assert_eq!(
        calculate_financials(b(1.0e308), &params(i)),
        Err(ComputationError::Overflow(Quantity::EscalatedRate))
    );
    assert!(agrees(1.0e308, i));
    assert_eq!(
        calculate_financials(b(f64::NAN), &params(scenario())),
        Err(ComputationError::Overflow(Quantity::EscalatedRate))
    );
}

#[test]
fn a_revenue_past_the_largest_number_is_reported() {
    assert_eq!(
        calculate_financials(b(1.0e308), &params(scenario())),
        Err(ComputationError::Overflow(Quantity::Revenue))
    );
    assert!(agrees(1.0e308, scenario()));
}

#[test]
fn a_cumulative_profit_past_the_largest_number_is_reported() {
    let mut i = scenario();
    i.au = 1.0;
    i.esc = 0.0;
    i.aic = 0.0;
    assert_eq!(
        calculate_financials(b(1.0e308), &params(i)),
        Err(ComputationError::Overflow(Quantity::CumulativeProfit))
    );
    assert!(agrees(1.0e308, i));
}

#[test]
fn projection_agrees_with_hardware_on_random_inputs() {
    let mut state: u64 = 0xdead_beef_0bad_cafe;
    for _ in 0..3000 {
        let i = Inputs {
            n: 1 + (next(&mut state) % 40) as i32,
            au: 1.0 + 2000.0 * fraction(&mut state),
            tsn0: 5000.0 * fraction(&mut state),
            esc: 12.0 * fraction(&mut state),
            aic: 100.0 * fraction(&mut state),
            hsi: 1.0 + 20000.0 * fraction(&mut state),
            ovh: 1.0 + 60000.0 * fraction(&mut state),
            hsi_cost: 1.0e5 * fraction(&mut state),
            ovh_cost: 1.0e6 * fraction(&mut state),
        };
        let rate = 2000.0 * fraction(&mut state) - 500.0;
        assert!(agrees(rate, i), "rate {:e}", rate);
    }
}

#[test]
fn projection_agrees_with_hardware_on_extreme_inputs() {
    let mut state: u64 = 0x0123_4567_89ab_cdef;
    let scales = [1.0e-300, 1.0e-150, 1.0e-10, 1.0, 1.0e10, 1.0e150, 1.0e300];
    for _ in 0..3000 {
        let mut pick = |s: &mut u64| scales[(next(s) % 7) as usize] * (0.5 + fraction(s));
        let i = Inputs {
            n: 1 + (next(&mut state) % 300) as i32,
            au: pick(&mut state),
            tsn0: pick(&mut state),
            esc: pick(&mut state),
            aic: 100.0 * fraction(&mut state),
            hsi: pick(&mut state),
            ovh: pick(&mut state),
            hsi_cost: pick(&mut state),
            ovh_cost: pick(&mut state),
        };
        let rate = pick(&mut state) * if next(&mut state) % 2 == 0 { 1.0 } else { -1.0 };
        assert!(agrees(rate, i), "rate {:e}", rate);
    }
}
