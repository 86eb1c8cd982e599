//! Tests of the routed ledger operations.

use serp_market::BalanceStatus;
use serp_market::Config;
use serp_market::Error;
use serp_market::Event;
use serp_market::Origin;
use serp_market::Pallet;

const NATIVE: u64 = 1;
const TOKEN: u64 = 2;
const ALICE: u64 = 100;
const BOB: u64 = 101;

fn fresh() -> Pallet {
    let cfg = Config::new(NATIVE, 1_000, 2, 250, 750, 10, 11).unwrap();
    let mut p = Pallet::new(cfg, 5);
    assert!(p.register_asset(TOKEN, 3));
    p
}

#[test]
fn config_validation_refuses_bad_records() {
    // ratios that do not add up to one whole base unit
    assert!(Config::new(NATIVE, 1_000, 2, 250, 700, 10, 11).is_none());
    // a zero base unit
    assert!(Config::new(NATIVE, 0, 2, 0, 0, 10, 11).is_none());
    assert!(Config::new(NATIVE, 1_000, 2, 0, 1_000, 10, 11).is_some());
}

#[test]
fn register_asset_refuses_duplicates_and_native() {
    let mut p = fresh();
    assert!(!p.register_asset(TOKEN, 0));
    assert!(!p.register_asset(NATIVE, 0));
    assert!(p.register_asset(7, 9));
    assert_eq!(p.minimum_balance(7), 9);
}

#[test]
fn minimum_balance_reads_configuration() {
    let p = fresh();
    assert_eq!(p.minimum_balance(NATIVE), 5);
    assert_eq!(p.minimum_balance(TOKEN), 3);
    assert_eq!(p.minimum_balance(4_040), 0);
}

#[test]
fn deposit_and_withdraw_roundtrip() {
    let mut p = fresh();
    p.deposit(TOKEN, ALICE, 400).unwrap();
    assert_eq!(p.free_balance(TOKEN, ALICE), 400);
    assert_eq!(p.total_issuance(TOKEN), 400);
    p.withdraw(TOKEN, ALICE, 150).unwrap();
    assert_eq!(p.free_balance(TOKEN, ALICE), 250);
    assert_eq!(p.total_issuance(TOKEN), 250);
    assert_eq!(p.events.len(), 2);
    assert_eq!(p.events[0], Event::Deposited(TOKEN, ALICE, 400));
    assert_eq!(p.events[1], Event::Withdrawn(TOKEN, ALICE, 150));
}

#[test]
fn deposit_overflow_is_refused() {
    let mut p = fresh();
    p.deposit(TOKEN, ALICE, u64::MAX).unwrap();
    assert_eq!(p.deposit(TOKEN, BOB, 1), Err(Error::SupplyOverflow));
    assert_eq!(p.free_balance(TOKEN, BOB), 0);
    assert_eq!(p.total_issuance(TOKEN), u64::MAX);
}

#[test]
fn withdraw_more_than_free_fails() {
    let mut p = fresh();
    p.deposit(TOKEN, ALICE, 100).unwrap();
    assert_eq!(p.withdraw(TOKEN, ALICE, 101), Err(Error::BalanceTooLow));
    assert_eq!(p.free_balance(TOKEN, ALICE), 100);
}

#[test]
fn zero_deposit_and_withdraw_are_noops() {
    let mut p = fresh();
    p.deposit(TOKEN, ALICE, 0).unwrap();
    p.withdraw(TOKEN, ALICE, 0).unwrap();
    assert_eq!(p.total_issuance(TOKEN), 0);
    assert_eq!(p.events.len(), 0);
}

#[test]
fn transfer_moves_free_balance() {
    let mut p = fresh();
    p.deposit(TOKEN, ALICE, 300).unwrap();
    p.transfer(Origin::Signed(ALICE), BOB, TOKEN, 120).unwrap();
    assert_eq!(p.free_balance(TOKEN, ALICE), 180);
    assert_eq!(p.free_balance(TOKEN, BOB), 120);
    assert_eq!(p.total_issuance(TOKEN), 300);
    assert_eq!(p.events[1], Event::Transferred(TOKEN, ALICE, BOB, 120));
}

#[test]
fn transfer_requires_signed_origin() {
    let mut p = fresh();
    p.deposit(TOKEN, ALICE, 300).unwrap();
    assert_eq!(p.transfer(Origin::Root, BOB, TOKEN, 120), Err(Error::Unauthorized));
    assert_eq!(p.free_balance(TOKEN, ALICE), 300);
}

#[test]
fn transfer_with_insufficient_balance_fails() {
    let mut p = fresh();
    p.deposit(TOKEN, ALICE, 50).unwrap();
    assert_eq!(p.transfer(Origin::Signed(ALICE), BOB, TOKEN, 51), Err(Error::BalanceTooLow));
    assert_eq!(p.free_balance(TOKEN, ALICE), 50);
    assert_eq!(p.free_balance(TOKEN, BOB), 0);
}

#[test]
fn transfer_native_currency_moves_native() {
    let mut p = fresh();
    p.deposit(NATIVE, ALICE, 80).unwrap();
    p.transfer_native_currency(Origin::Signed(ALICE), BOB, 30).unwrap();
    assert_eq!(p.free_balance(NATIVE, ALICE), 50);
    assert_eq!(p.free_balance(NATIVE, BOB), 30);
    assert_eq!(p.events[1], Event::Transferred(NATIVE, ALICE, BOB, 30));
}

#[test]
fn update_balance_requires_root() {
    let mut p = fresh();
    assert_eq!(p.update_balance(Origin::Signed(ALICE), ALICE, TOKEN, 10), Err(
        Error::Unauthorized
    ));
}

#[test]
fn update_balance_deposits_and_withdraws() {
    let mut p = fresh();
    p.update_balance(Origin::Root, ALICE, TOKEN, 500).unwrap();
    assert_eq!(p.free_balance(TOKEN, ALICE), 500);
    assert_eq!(p.total_issuance(TOKEN), 500);
    p.update_balance(Origin::Root, ALICE, TOKEN, -200).unwrap();
    assert_eq!(p.free_balance(TOKEN, ALICE), 300);
    assert_eq!(p.total_issuance(TOKEN), 300);
    assert_eq!(p.events[0], Event::BalanceUpdated(TOKEN, ALICE, 500));
    assert_eq!(p.events[1], Event::BalanceUpdated(TOKEN, ALICE, -200));
}

#[test]
fn update_balance_rejects_oversized_magnitude() {
    let mut p = fresh();
    let too_big = (u64::MAX as i128) + 1;
    assert_eq!(p.update_balance(Origin::Root, ALICE, TOKEN, too_big), Err(
        Error::AmountIntoBalanceFailed
    ));
    assert_eq!(p.update_balance(Origin::Root, ALICE, TOKEN, -too_big), Err(
        Error::AmountIntoBalanceFailed
    ));
    assert_eq!(p.total_issuance(TOKEN), 0);
}

#[test]
fn update_balance_withdraw_below_balance_fails() {
    let mut p = fresh();
    p.update_balance(Origin::Root, ALICE, TOKEN, 100).unwrap();
    assert_eq!(p.update_balance(Origin::Root, ALICE, TOKEN, -101), Err(Error::BalanceTooLow));
    assert_eq!(p.free_balance(TOKEN, ALICE), 100);
}

#[test]
fn reserve_and_unreserve_move_between_sides() {
    let mut p = fresh();
    p.deposit(TOKEN, ALICE, 100).unwrap();
    assert!(p.can_reserve(TOKEN, ALICE, 60));
    assert!(!p.can_reserve(TOKEN, ALICE, 101));
    p.reserve(TOKEN, ALICE, 60).unwrap();
    assert_eq!(p.free_balance(TOKEN, ALICE), 40);
    assert_eq!(p.reserved_balance(TOKEN, ALICE), 60);
    assert_eq!(p.total_balance(TOKEN, ALICE), 100);
    assert_eq!(p.total_issuance(TOKEN), 100);
    // unreserving more than is reserved returns the remainder
    assert_eq!(p.unreserve(TOKEN, ALICE, 75), 15);
    assert_eq!(p.free_balance(TOKEN, ALICE), 100);
    assert_eq!(p.reserved_balance(TOKEN, ALICE), 0);
}

#[test]
fn reserve_more_than_free_fails() {
    let mut p = fresh();
    p.deposit(TOKEN, ALICE, 10).unwrap();
    assert_eq!(p.reserve(TOKEN, ALICE, 11), Err(Error::BalanceTooLow));
    assert_eq!(p.free_balance(TOKEN, ALICE), 10);
}

#[test]
fn slash_takes_up_to_amount_and_returns_gap() {
    let mut p = fresh();
    p.deposit(TOKEN, ALICE, 100).unwrap();
    assert!(p.can_slash(TOKEN, ALICE, 100));
    assert!(!p.can_slash(TOKEN, ALICE, 101));
    assert_eq!(p.slash(TOKEN, ALICE, 30), 0);
    assert_eq!(p.free_balance(TOKEN, ALICE), 70);
    assert_eq!(p.total_issuance(TOKEN), 70);
    // a shortfall is returned, not an error
    assert_eq!(p.slash(TOKEN, ALICE, 100), 30);
    assert_eq!(p.free_balance(TOKEN, ALICE), 0);
    assert_eq!(p.total_issuance(TOKEN), 0);
}

#[test]
fn slash_reserved_takes_from_escrow() {
    let mut p = fresh();
    p.deposit(TOKEN, ALICE, 100).unwrap();
    p.reserve(TOKEN, ALICE, 80).unwrap();
    assert_eq!(p.slash_reserved(TOKEN, ALICE, 50), 0);
    assert_eq!(p.reserved_balance(TOKEN, ALICE), 30);
    assert_eq!(p.total_issuance(TOKEN), 50);
    assert_eq!(p.slash_reserved(TOKEN, ALICE, 40), 10);
    assert_eq!(p.reserved_balance(TOKEN, ALICE), 0);
}

#[test]
fn repatriate_reserved_to_free_and_reserved() {
    let mut p = fresh();
    p.deposit(TOKEN, ALICE, 100).unwrap();
    p.reserve(TOKEN, ALICE, 100).unwrap();
    assert_eq!(
        p.repatriate_reserved(TOKEN, ALICE, BOB, 40, BalanceStatus::Free),
        Ok(0)
    );
    assert_eq!(p.free_balance(TOKEN, BOB), 40);
    assert_eq!(p.reserved_balance(TOKEN, ALICE), 60);
    assert_eq!(
        p.repatriate_reserved(TOKEN, ALICE, BOB, 50, BalanceStatus::Reserved),
        Ok(0)
    );
    assert_eq!(p.reserved_balance(TOKEN, BOB), 50);
    assert_eq!(p.reserved_balance(TOKEN, ALICE), 10);
    // the unmet remainder is returned instead of an error
    assert_eq!(
        p.repatriate_reserved(TOKEN, ALICE, BOB, 25, BalanceStatus::Free),
        Ok(15)
    );
    assert_eq!(p.reserved_balance(TOKEN, ALICE), 0);
    assert_eq!(p.free_balance(TOKEN, BOB), 50);
    assert_eq!(p.total_issuance(TOKEN), 100);
}

#[test]
fn repatriate_reserved_to_self() {
    let mut p = fresh();
    p.deposit(TOKEN, ALICE, 100).unwrap();
    p.reserve(TOKEN, ALICE, 100).unwrap();
    // to self with Reserved status: nothing moves
    assert_eq!(
        p.repatriate_reserved(TOKEN, ALICE, ALICE, 30, BalanceStatus::Reserved),
        Ok(0)
    );
    assert_eq!(p.reserved_balance(TOKEN, ALICE), 100);
    // to self with Free status: an unreserve
    assert_eq!(
        p.repatriate_reserved(TOKEN, ALICE, ALICE, 30, BalanceStatus::Free),
        Ok(0)
    );
    assert_eq!(p.free_balance(TOKEN, ALICE), 30);
    assert_eq!(p.reserved_balance(TOKEN, ALICE), 70);
}

#[test]
fn locks_restrict_withdrawal() {
    let mut p = fresh();
    p.deposit(TOKEN, ALICE, 100).unwrap();
    p.set_lock(1, TOKEN, ALICE, 70).unwrap();
    assert!(p.ensure_can_withdraw(TOKEN, ALICE, 30).is_ok());
    assert!(p.ensure_can_withdraw(TOKEN, ALICE, 31).is_err());
    assert_eq!(p.withdraw(TOKEN, ALICE, 31), Err(Error::BalanceTooLow));
    p.withdraw(TOKEN, ALICE, 30).unwrap();
    assert_eq!(p.free_balance(TOKEN, ALICE), 70);
    // the lock does not reduce the total balance
    assert_eq!(p.total_balance(TOKEN, ALICE), 70);
    p.remove_lock(1, TOKEN, ALICE).unwrap();
    p.withdraw(TOKEN, ALICE, 70).unwrap();
    assert_eq!(p.free_balance(TOKEN, ALICE), 0);
}

#[test]
fn set_lock_replaces_and_zero_removes() {
    let mut p = fresh();
    p.deposit(TOKEN, ALICE, 100).unwrap();
    p.set_lock(1, TOKEN, ALICE, 90).unwrap();
    p.set_lock(1, TOKEN, ALICE, 20).unwrap();
    assert!(p.ensure_can_withdraw(TOKEN, ALICE, 80).is_ok());
    p.set_lock(1, TOKEN, ALICE, 0).unwrap();
    assert!(p.ensure_can_withdraw(TOKEN, ALICE, 100).is_ok());
}

#[test]
fn extend_lock_never_lowers() {
    let mut p = fresh();
    p.deposit(TOKEN, ALICE, 100).unwrap();
    p.extend_lock(1, TOKEN, ALICE, 40).unwrap();
    // extending with a smaller amount keeps the larger lock
    p.extend_lock(1, TOKEN, ALICE, 10).unwrap();
    assert!(p.ensure_can_withdraw(TOKEN, ALICE, 60).is_ok());
    assert!(p.ensure_can_withdraw(TOKEN, ALICE, 61).is_err());
    p.extend_lock(1, TOKEN, ALICE, 90).unwrap();
    assert!(p.ensure_can_withdraw(TOKEN, ALICE, 10).is_ok());
    assert!(p.ensure_can_withdraw(TOKEN, ALICE, 11).is_err());
}

#[test]
fn two_locks_freeze_the_larger_amount() {
    let mut p = fresh();
    p.deposit(NATIVE, ALICE, 100).unwrap();
    p.set_lock(1, NATIVE, ALICE, 30).unwrap();
    p.set_lock(2, NATIVE, ALICE, 55).unwrap();
    assert!(p.ensure_can_withdraw(NATIVE, ALICE, 45).is_ok());
    assert!(p.ensure_can_withdraw(NATIVE, ALICE, 46).is_err());
    p.remove_lock(2, NATIVE, ALICE).unwrap();
    assert!(p.ensure_can_withdraw(NATIVE, ALICE, 70).is_ok());
}

#[test]
fn slash_ignores_locks() {
    let mut p = fresh();
    p.deposit(TOKEN, ALICE, 100).unwrap();
    p.set_lock(1, TOKEN, ALICE, 100).unwrap();
    assert_eq!(p.slash(TOKEN, ALICE, 100), 0);
    assert_eq!(p.free_balance(TOKEN, ALICE), 0);
}
