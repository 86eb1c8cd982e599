//! Unit tests for the supply controller.

use serp_market::Config;
use serp_market::Origin;
use serp_market::Pallet;

const NATIVE: u64 = 1;
const TOKEN: u64 = 2;
const SETTPAY_ACC: u64 = 10;
const SERPER_ACC: u64 = 11;
const OTHER_ACC: u64 = 99;

/// A ledger with one pegged currency at a total issuance of
/// 1_000_000 * 1_000, of which the treasury and the reserve provider hold
/// 500_000 each (the reserve provider's share escrowed), plus native
/// collateral reserved by the reserve provider.
fn build() -> Pallet {
    let cfg = Config::new(NATIVE, 1_000, 2, 250, 750, SETTPAY_ACC, SERPER_ACC).unwrap();
    let mut p = Pallet::new(cfg, 0);
    assert!(p.register_asset(TOKEN, 0));
    p.deposit(TOKEN, SETTPAY_ACC, 500_000).unwrap();
    p.deposit(TOKEN, SERPER_ACC, 500_000).unwrap();
    p.reserve(TOKEN, SERPER_ACC, 500_000).unwrap();
    p.deposit(TOKEN, OTHER_ACC, 1_000_000 * 1_000 - 1_000_000).unwrap();
    p.deposit(NATIVE, SERPER_ACC, 500_000).unwrap();
    p.reserve(NATIVE, SERPER_ACC, 500_000).unwrap();
    p
}

#[test]
fn expand_supply_should_work() {
    let mut p = build();
    assert_eq!(p.total_issuance(TOKEN), 1_000_000 * 1_000);
    let prev_supply = p.total_issuance(TOKEN);
    let prev_reserved_balance = p.reserved_balance(NATIVE, SERPER_ACC);
    let prev_free_balance = p.free_balance(TOKEN, SERPER_ACC);
    let prev_token_reserved = p.reserved_balance(TOKEN, SERPER_ACC);
    let prev_settpay_free = p.free_balance(TOKEN, SETTPAY_ACC);
    let expand_by = 100_000;
    let quote_price = 18_000;
    let pay_by_quoted = p.pay_serpup_by_quoted(TOKEN, expand_by, quote_price).unwrap();
    // supply 1_000_000_000 + 100_000 at base unit 1_000: the new base price
    // rounds to 1_000, so the quoted price is the base unit itself and the
    // relative price 18_000 / 1_000 = 18 gives 100_000 / 18 = 5_555.
    assert_eq!(pay_by_quoted, 5_555);
    p.expand_supply(Origin::Root, TOKEN, expand_by, quote_price).unwrap();
    assert_eq!(
        p.total_issuance(TOKEN),
        prev_supply + expand_by,
        "supply should be increased by expand_by"
    );
    // the treasury receives the settpay share of the minted supply, the
    // reserve provider the serper share, escrowed
    assert_eq!(p.free_balance(TOKEN, SETTPAY_ACC), prev_settpay_free + 75_000);
    assert_eq!(p.reserved_balance(TOKEN, SERPER_ACC), prev_token_reserved + 25_000);
    assert_eq!(p.free_balance(TOKEN, SERPER_ACC), prev_free_balance);
    assert_eq!(
        p.reserved_balance(NATIVE, SERPER_ACC),
        prev_reserved_balance - pay_by_quoted,
        "reserved balance should be decreased by pay_by_quoted"
    );
}

#[test]
fn contract_supply_should_work() {
    let mut p = build();
    assert_eq!(p.total_issuance(TOKEN), 1_000_000 * 1_000);
    let prev_supply = p.total_issuance(TOKEN);
    let prev_reserved_balance = p.reserved_balance(TOKEN, SERPER_ACC);
    let prev_free_balance = p.free_balance(NATIVE, SERPER_ACC);
    let prev_native_reserved = p.reserved_balance(NATIVE, SERPER_ACC);
    let contract_by = 100_000;
    let quote_price = 11_000;
    let pay_by_quoted = p.pay_serpdown_by_quoted(TOKEN, contract_by, quote_price).unwrap();
    p.contract_supply(Origin::Root, TOKEN, contract_by, quote_price).unwrap();
    assert_eq!(
        p.total_issuance(TOKEN),
        prev_supply - contract_by,
        "supply should be decreased by contract_by"
    );
    assert_eq!(
        p.reserved_balance(TOKEN, SERPER_ACC),
        prev_reserved_balance - contract_by,
        "reserved balance should be decreased by contract_by"
    );
    assert_eq!(p.free_balance(NATIVE, SERPER_ACC), prev_free_balance);
    // the native reward is minted and immediately escrowed
    assert_eq!(p.reserved_balance(NATIVE, SERPER_ACC), prev_native_reserved + pay_by_quoted);
}
