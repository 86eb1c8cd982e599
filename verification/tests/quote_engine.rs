//! Tests of the pure serp quote engine.

use serp_market::quote::calculate_supply_change;
use serp_market::quote::pay_serpdown_by_quoted;
use serp_market::quote::pay_serpup_by_quoted;
use serp_market::quote::peg_price;
use serp_market::quote::quote_serp_price;
use serp_market::quote::relative_price;
use serp_market::quote::saturating_mul;
use serp_market::Error;

#[test]
fn peg_price_scales_by_base_unit() {
    assert_eq!(peg_price(3, 1_000), 3_000);
    assert_eq!(peg_price(0, 1_000), 0);
    // saturates instead of wrapping
    assert_eq!(peg_price(u64::MAX, 2), u64::MAX);
}

#[test]
fn saturating_mul_clamps() {
    assert_eq!(saturating_mul(6, 7), 42);
    assert_eq!(saturating_mul(u64::MAX, 1), u64::MAX);
    assert_eq!(saturating_mul(u64::MAX / 2 + 1, 2), u64::MAX);
}

#[test]
fn relative_price_gives_both_directions() {
    assert_eq!(relative_price(500, 2_000), Ok((4, 0)));
    assert_eq!(relative_price(2_000, 500), Ok((0, 4)));
    assert_eq!(relative_price(1_000, 1_000), Ok((1, 1)));
}

#[test]
fn relative_price_rejects_zero() {
    assert_eq!(relative_price(0, 2_000), Err(Error::ZeroPrice));
    assert_eq!(relative_price(2_000, 0), Err(Error::ZeroPrice));
}

#[test]
fn quote_serp_price_exact_value() {
    // fraction 5, fractioned 4, quotation 8, result 13
    assert_eq!(quote_serp_price(5_500, 1_000, 2), Ok(13));
    // a price below one base unit: fraction 0, no premium
    assert_eq!(quote_serp_price(999, 1_000, 2), Ok(0));
    assert_eq!(quote_serp_price(1_000, 1_000, 7), Ok(1));
    assert_eq!(quote_serp_price(5_500, 0, 2), Err(Error::ZeroPrice));
}

#[test]
fn quote_serp_price_monotonic_samples() {
    let base = 1_000;
    let m = 3;
    let mut prev = quote_serp_price(0, base, m).unwrap();
    for p in [1u64, 999, 1_000, 1_001, 2_000, 5_500, 1_000_000] {
        let q = quote_serp_price(p, base, m).unwrap();
        assert!(q >= prev);
        prev = q;
    }
}

#[test]
fn pay_serpup_exact_value() {
    // the expansion fixture: supply 1_000_000_000, expand 110_000_000,
    // base unit 1_000, premium multiple 2, quote price 89_000.
    // new base price 1_110; fractioned 110; quotation 220; quoted 890;
    // relative 89_000 / 890 = 100; pay 110_000_000 / 100 = 1_100_000.
    assert_eq!(pay_serpup_by_quoted(1_000_000_000, 110_000_000, 1_000, 2, 89_000), Ok(1_100_000));
}

#[test]
fn pay_serpup_errors() {
    assert_eq!(pay_serpup_by_quoted(u64::MAX, 1, 1_000, 2, 89_000), Err(Error::SupplyOverflow));
    assert_eq!(pay_serpup_by_quoted(0, 10, 1_000, 2, 89_000), Err(Error::ZeroPrice));
    // a quote price below the serp-quoted price makes the relative price
    // zero: a zero divisor
    assert_eq!(pay_serpup_by_quoted(1_000_000_000, 110_000_000, 1_000, 2, 100), Err(
        Error::ZeroPrice
    ));
}

#[test]
fn pay_serpdown_exact_value() {
    // the contraction fixture: supply 1_000_000_000, contract 100_000_000,
    // base unit 1_000, premium multiple 2, quote price 20_000.
    // new base price 900; fractioned 100; quotation 200; quoted 1_100;
    // relative 1_100 / 20_000 = 0; pay 0.
    assert_eq!(pay_serpdown_by_quoted(1_000_000_000, 100_000_000, 1_000, 2, 20_000), Ok(0));
    // a quote price small enough to leave a nonzero relative price:
    // relative 1_100 / 100 = 11; scaled 1_100_000_000; pay 1_100_000.
    assert_eq!(pay_serpdown_by_quoted(1_000_000_000, 100_000_000, 1_000, 2, 100), Ok(1_100_000));
}

#[test]
fn pay_serpdown_errors() {
    assert_eq!(pay_serpdown_by_quoted(100, 101, 1_000, 2, 20_000), Err(Error::SupplyUnderflow));
    assert_eq!(pay_serpdown_by_quoted(0, 0, 1_000, 2, 20_000), Err(Error::ZeroPrice));
    assert_eq!(pay_serpdown_by_quoted(1_000, 100, 1_000, 2, 0), Err(Error::ZeroPrice));
    assert_eq!(pay_serpdown_by_quoted(1_000, 100, 0, 2, 20_000), Err(Error::ZeroPrice));
}

#[test]
fn calculate_supply_change_exact_value() {
    // supply 1_000, price 1_100 against base 1_000: a tenth of the supply
    assert_eq!(calculate_supply_change(1_000, 1_000, 1_100), Ok(100));
    // a price at or below the peg asks for no change
    assert_eq!(calculate_supply_change(1_000, 1_000, 1_000), Ok(0));
    assert_eq!(calculate_supply_change(1_000, 1_000, 900), Ok(0));
    assert_eq!(calculate_supply_change(1_000, 0, 1_100), Err(Error::ZeroPrice));
}
