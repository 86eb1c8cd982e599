use serp_market::quote::calculate_supply_change;

#[test]
fn calculate_supply_change_should_work() {
    let price = 1_000 + 100;
    let supply = u64::MAX;
    let contract_by = calculate_supply_change(supply, 1_000, price).unwrap();
    // the error should be low enough
    assert!(contract_by >= u64::MAX / 10 - 1);
    assert!(contract_by <= u64::MAX / 10 + 1);
}
