//! Scenario tests for the supply controller's laws: conservation, no-op
//! transfers, native protection, the expansion and contraction fixtures,
//! and merge atomicity.

use serp_market::Config;
use serp_market::Error;
use serp_market::Origin;
use serp_market::Pallet;

const NATIVE: u64 = 1;
const TOKEN: u64 = 2;
const SETTPAY_ACC: u64 = 10;
const SERPER_ACC: u64 = 11;
const ALICE: u64 = 100;
const BOB: u64 = 101;

fn scaled_ledger() -> Pallet {
    // base unit 1_000, serper ratio 0.25, settpay ratio 0.75, premium
    // multiple 2
    let cfg = Config::new(NATIVE, 1_000, 2, 250, 750, SETTPAY_ACC, SERPER_ACC).unwrap();
    let mut p = Pallet::new(cfg, 0);
    assert!(p.register_asset(TOKEN, 0));
    p
}

#[test]
fn no_op_transfers_change_nothing() {
    let mut p = scaled_ledger();
    p.deposit(TOKEN, ALICE, 500).unwrap();
    let events_before = p.events.len();
    // a self-transfer of any amount
    p.do_transfer(TOKEN, ALICE, ALICE, 123).unwrap();
    // a zero transfer to anyone
    p.do_transfer(TOKEN, ALICE, BOB, 0).unwrap();
    assert_eq!(p.free_balance(TOKEN, ALICE), 500);
    assert_eq!(p.free_balance(TOKEN, BOB), 0);
    assert_eq!(p.events.len(), events_before, "no event may be emitted for a no-op transfer");
}

#[test]
fn native_asset_is_protected_from_serping() {
    let mut p = scaled_ledger();
    p.deposit(NATIVE, SERPER_ACC, 1_000_000).unwrap();
    assert_eq!(
        p.expand_supply(Origin::Root, NATIVE, 10, 20_000),
        Err(Error::CannotSerpNativeAsset)
    );
    assert_eq!(
        p.contract_supply(Origin::Root, NATIVE, 10, 20_000),
        Err(Error::CannotSerpNativeAsset)
    );
    assert_eq!(p.total_issuance(NATIVE), 1_000_000);
}

#[test]
fn serp_operations_require_root() {
    let mut p = scaled_ledger();
    assert_eq!(
        p.expand_supply(Origin::Signed(ALICE), TOKEN, 10, 20_000),
        Err(Error::Unauthorized)
    );
    assert_eq!(
        p.contract_supply(Origin::Signed(ALICE), TOKEN, 10, 20_000),
        Err(Error::Unauthorized)
    );
}

#[test]
fn serp_operations_reject_zero_price() {
    let mut p = scaled_ledger();
    p.deposit(TOKEN, ALICE, 1_000).unwrap();
    assert_eq!(p.expand_supply(Origin::Root, TOKEN, 10, 0), Err(Error::ZeroPrice));
    assert_eq!(p.contract_supply(Origin::Root, TOKEN, 0, 0), Err(Error::ZeroPrice));
}

#[test]
fn expansion_scenario() {
    let mut p = scaled_ledger();
    p.deposit(TOKEN, ALICE, 1_000_000_000).unwrap();
    p.deposit(NATIVE, SERPER_ACC, 2_000_000).unwrap();
    p.reserve(NATIVE, SERPER_ACC, 2_000_000).unwrap();
    assert_eq!(p.total_issuance(TOKEN), 1_000_000_000);
    let pay = p.pay_serpup_by_quoted(TOKEN, 110_000_000, 89_000).unwrap();
    let reserved_before = p.reserved_balance(NATIVE, SERPER_ACC);
    p.expand_supply(Origin::Root, TOKEN, 110_000_000, 89_000).unwrap();
    assert_eq!(p.total_issuance(TOKEN), 1_110_000_000);
    assert_eq!(p.reserved_balance(NATIVE, SERPER_ACC), reserved_before - pay);
    // the quoted price itself: new base price 1_110, premium 220, quoted
    // 890, relative 100
    assert_eq!(pay, 1_100_000);
    // the distribution: 75% to the treasury's free, 25% to the reserve
    // provider's escrow
    assert_eq!(p.free_balance(TOKEN, SETTPAY_ACC), 82_500_000);
    assert_eq!(p.reserved_balance(TOKEN, SERPER_ACC), 27_500_000);
}

#[test]
fn contraction_scenario() {
    let mut p = scaled_ledger();
    p.deposit(TOKEN, ALICE, 900_000_000).unwrap();
    p.deposit(TOKEN, SERPER_ACC, 100_000_000).unwrap();
    p.reserve(TOKEN, SERPER_ACC, 100_000_000).unwrap();
    assert_eq!(p.total_issuance(TOKEN), 1_000_000_000);
    let pay = p.pay_serpdown_by_quoted(TOKEN, 100_000_000, 20_000).unwrap();
    let free_native_before = p.free_balance(NATIVE, SERPER_ACC);
    p.contract_supply(Origin::Root, TOKEN, 100_000_000, 20_000).unwrap();
    assert_eq!(p.total_issuance(TOKEN), 900_000_000);
    assert_eq!(p.free_balance(NATIVE, SERPER_ACC), free_native_before + pay);
}

#[test]
fn contraction_fails_below_reserved_balance() {
    let mut p = scaled_ledger();
    p.deposit(TOKEN, ALICE, 950_000_000).unwrap();
    p.deposit(TOKEN, SERPER_ACC, 50_000_000).unwrap();
    p.reserve(TOKEN, SERPER_ACC, 50_000_000).unwrap();
    assert_eq!(
        p.contract_supply(Origin::Root, TOKEN, 100_000_000, 20_000),
        Err(Error::BalanceTooLow)
    );
    assert_eq!(p.total_issuance(TOKEN), 1_000_000_000);
    assert_eq!(p.reserved_balance(TOKEN, SERPER_ACC), 50_000_000);
}

#[test]
fn conservation_holds_across_operations() {
    let mut p = scaled_ledger();
    p.deposit(TOKEN, ALICE, 700).unwrap();
    p.deposit(TOKEN, BOB, 300).unwrap();
    p.reserve(TOKEN, ALICE, 200).unwrap();
    p.do_transfer(TOKEN, ALICE, BOB, 100).unwrap();
    let _gap = p.slash(TOKEN, BOB, 50);
    let held = p.free_balance(TOKEN, ALICE) + p.reserved_balance(TOKEN, ALICE) + p.free_balance(
        TOKEN,
        BOB,
    ) + p.reserved_balance(TOKEN, BOB);
    assert_eq!(p.total_issuance(TOKEN), held);
}

#[test]
fn merge_account_consolidates_everything() {
    let mut p = scaled_ledger();
    p.deposit(TOKEN, ALICE, 400).unwrap();
    p.deposit(NATIVE, ALICE, 50).unwrap();
    p.reserve(NATIVE, ALICE, 20).unwrap();
    p.deposit(TOKEN, BOB, 7).unwrap();
    p.merge_account(ALICE, BOB).unwrap();
    assert_eq!(p.free_balance(TOKEN, ALICE), 0);
    assert_eq!(p.reserved_balance(TOKEN, ALICE), 0);
    assert_eq!(p.free_balance(NATIVE, ALICE), 0);
    assert_eq!(p.reserved_balance(NATIVE, ALICE), 0);
    assert_eq!(p.free_balance(TOKEN, BOB), 407);
    // the unreserved native escrow arrives as free balance
    assert_eq!(p.free_balance(NATIVE, BOB), 50);
    assert_eq!(p.reserved_balance(NATIVE, BOB), 0);
    assert_eq!(p.total_issuance(TOKEN), 407);
    assert_eq!(p.total_issuance(NATIVE), 50);
}

#[test]
fn merge_account_rolls_back_when_a_leg_fails() {
    let mut p = scaled_ledger();
    p.deposit(TOKEN, ALICE, 400).unwrap();
    p.deposit(NATIVE, ALICE, 50).unwrap();
    // a lock on the native balance blocks the final native transfer
    p.set_lock(1, NATIVE, ALICE, 10).unwrap();
    assert_eq!(p.merge_account(ALICE, BOB), Err(Error::BalanceTooLow));
    // no partial merge is observable
    assert_eq!(p.free_balance(TOKEN, ALICE), 400);
    assert_eq!(p.free_balance(NATIVE, ALICE), 50);
    assert_eq!(p.free_balance(TOKEN, BOB), 0);
    assert_eq!(p.free_balance(NATIVE, BOB), 0);
}

#[test]
fn merge_account_refuses_pegged_escrow() {
    let mut p = scaled_ledger();
    p.deposit(TOKEN, ALICE, 400).unwrap();
    p.reserve(TOKEN, ALICE, 100).unwrap();
    assert_eq!(p.merge_account(ALICE, BOB), Err(Error::BalanceTooLow));
    assert_eq!(p.free_balance(TOKEN, ALICE), 300);
    assert_eq!(p.reserved_balance(TOKEN, ALICE), 100);
}

#[test]
fn merge_account_into_itself_releases_native_escrow() {
    let mut p = scaled_ledger();
    p.deposit(NATIVE, ALICE, 50).unwrap();
    p.reserve(NATIVE, ALICE, 20).unwrap();
    p.merge_account(ALICE, ALICE).unwrap();
    assert_eq!(p.free_balance(NATIVE, ALICE), 50);
    assert_eq!(p.reserved_balance(NATIVE, ALICE), 0);
}
