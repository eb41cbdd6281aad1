use perpdex::dex_accounts::{deactivate_subaccount, deposit_funds_to_subaccount, ENOT_SUBACCOUNT_OWNER, ESUBACCOUNT_DOESNT_EXIST};
use perpdex::dex_accounts::withdraw_from_subaccount;
use perpdex::builder_code_registry::{
    approve_max_fee, compute_fee_from_basis_points, get_approved_max_fee, initialize, new_builder_code,
    revoke_max_fee, set_global_max_fee, EINVALID_ADDRESS, EINVALID_AMOUNT, EINVALID_MAX_FEE,
};
use perpdex::collateral_balance_sheet::{
    balance_type_cross, balance_type_isolated, change_type_user_movement, CollateralBalanceSheet,
};
use perpdex::dead_mans_switch_tracker::{is_order_valid, keep_alive, new_dead_mans_switch_tracker, E_KEEP_ALIVE_TIMEOUT_TOO_SHORT};
use perpdex::moving_average::{
    add_moving_average_observation, get_moving_average_value, new_ema, EINVALID_LOOKBACK_WINDOW,
};

const ADMIN: [u8; 32] = [1u8; 32];
const USER: [u8; 32] = [2u8; 32];
const BUILDER: [u8; 32] = [3u8; 32];
const MARKET: [u8; 32] = [4u8; 32];
const ASSET: [u8; 32] = [5u8; 32];

#[test]
fn test_collateral_deposit_withdraw_restores() {
    let mut sheet = CollateralBalanceSheet::initialize(ASSET, 6);
    let cross = balance_type_cross(USER);
    assert_eq!(sheet.balance_of_primary_asset(&cross), 0);
    sheet.deposit_primary_collateral(cross, 1_000, change_type_user_movement());
    assert_eq!(sheet.balance_of_primary_asset(&cross), 1_000);
    assert_eq!(sheet.get_global_primary_store_balance(), 1_000);
    sheet.withdraw_primary_collateral_unchecked(cross, 400, change_type_user_movement());
    assert_eq!(sheet.balance_of_primary_asset(&cross), 600);
    assert_eq!(sheet.get_global_primary_store_balance(), 600);
}

#[test]
fn test_collateral_transfer_conserves_total() {
    let mut sheet = CollateralBalanceSheet::initialize(ASSET, 6);
    let cross = balance_type_cross(USER);
    let isolated = balance_type_isolated(USER, MARKET);
    sheet.deposit_primary_collateral(cross, 1_000, change_type_user_movement());
    sheet.transfer_from_crossed_to_isolated(USER, 300, MARKET, change_type_user_movement());
    assert_eq!(sheet.balance_of_primary_asset(&cross), 700);
    assert_eq!(sheet.balance_of_primary_asset(&isolated), 300);
    sheet.transfer_from_isolated_to_crossed(USER, 100, MARKET, change_type_user_movement());
    assert_eq!(sheet.balance_of_primary_asset(&cross), 800);
    assert_eq!(sheet.balance_of_primary_asset(&isolated), 200);
    assert_eq!(sheet.get_global_primary_store_balance(), 1_000);
}

#[test]
fn test_collateral_reserved_amount() {
    let mut sheet = CollateralBalanceSheet::initialize(ASSET, 6);
    assert_eq!(sheet.get_reserved_collateral(USER), 0);
    sheet.set_reserved_collateral(USER, 250);
    assert_eq!(sheet.get_reserved_collateral(USER), 250);
    assert_eq!(sheet.balance_of_primary_asset(&balance_type_cross(USER)), 0);
}

#[test]
fn test_builder_registry() {
    assert_eq!(initialize(ADMIN, USER, 100).err(), Some(EINVALID_ADDRESS));
    let mut reg = initialize(ADMIN, ADMIN, 100).unwrap();
    assert_eq!(new_builder_code(&reg, BUILDER, 0).err(), Some(EINVALID_AMOUNT));
    assert_eq!(new_builder_code(&reg, BUILDER, 101).err(), Some(EINVALID_MAX_FEE));
    assert!(new_builder_code(&reg, BUILDER, 100).is_ok());
    assert_eq!(approve_max_fee(&mut reg, USER, BUILDER, 200), Err(EINVALID_MAX_FEE));
    assert_eq!(get_approved_max_fee(&reg, USER, BUILDER), None);
    assert_eq!(approve_max_fee(&mut reg, USER, BUILDER, 50), Ok(()));
    assert_eq!(get_approved_max_fee(&reg, USER, BUILDER), Some(50));
    assert!(revoke_max_fee(&mut reg, USER, BUILDER).is_ok());
    assert_eq!(get_approved_max_fee(&reg, USER, BUILDER), None);
    set_global_max_fee(&mut reg, 10);
    assert_eq!(new_builder_code(&reg, BUILDER, 11).err(), Some(EINVALID_MAX_FEE));
}

#[test]
fn test_fee_from_basis_points() {
    // 10 basis points of a notional of 1_000_000 is 1_000 over the fee precision of 10_000 * 100
    assert_eq!(compute_fee_from_basis_points(1_000_000_000, 10), 10_000);
    assert_eq!(compute_fee_from_basis_points(999_999, 1), 0);
}

#[test]
fn test_dead_mans_switch() {
    let mut t = new_dead_mans_switch_tracker(60);
    // without a session every order is valid
    assert!(is_order_valid(&t, USER, Some(5), 100));
    assert_eq!(keep_alive(&mut t, ADMIN, MARKET, USER, 30, 100), Err(E_KEEP_ALIVE_TIMEOUT_TOO_SHORT));
    assert_eq!(keep_alive(&mut t, ADMIN, MARKET, USER, 120, 100), Ok(()));
    // the first session keeps every earlier order valid until it expires at 220
    assert!(is_order_valid(&t, USER, Some(50), 150));
    assert!(is_order_valid(&t, USER, None, 220));
    assert!(!is_order_valid(&t, USER, Some(100), 221));
    // a keep-alive after the expiration starts a new session at 300
    assert_eq!(keep_alive(&mut t, ADMIN, MARKET, USER, 60, 300), Ok(()));
    assert!(!is_order_valid(&t, USER, Some(250), 310));
    assert!(is_order_valid(&t, USER, Some(300), 310));
    // a keep-alive within the session only extends it
    assert_eq!(keep_alive(&mut t, ADMIN, MARKET, USER, 60, 320), Ok(()));
    assert!(is_order_valid(&t, USER, Some(300), 380));
    // a zero timeout ends the session
    assert_eq!(keep_alive(&mut t, ADMIN, MARKET, USER, 0, 400), Ok(()));
    assert!(is_order_valid(&t, USER, Some(5), 1_000));
}

#[test]
fn test_moving_average() {
    assert_eq!(new_ema(5).err(), Some(EINVALID_LOOKBACK_WINDOW));
    assert_eq!(new_ema(31_536_001).err(), Some(EINVALID_LOOKBACK_WINDOW));
    let mut ma = new_ema(60).unwrap();
    assert_eq!(get_moving_average_value(&ma), 0);
    add_moving_average_observation(&mut ma, 1_000, 1_000_000);
    assert_eq!(get_moving_average_value(&ma), 1_000);
    // an observation no later than the last one is dropped
    add_moving_average_observation(&mut ma, 9_000, 1_000_000);
    assert_eq!(get_moving_average_value(&ma), 1_000);
    add_moving_average_observation(&mut ma, 5_000, 2_000_000);
    let v = get_moving_average_value(&ma);
    assert!(v > 1_000 && v < 5_000);
}

#[test]
fn test_withdraw_from_subaccount_splits_between_balances() {
    assert_eq!(withdraw_from_subaccount(USER, USER, ASSET, 70, 100), (70, None));
    assert_eq!(withdraw_from_subaccount(USER, USER, ASSET, 100, 100), (100, None));
    assert_eq!(withdraw_from_subaccount(USER, USER, ASSET, 150, 100), (100, Some(50)));
    assert_eq!(withdraw_from_subaccount(USER, USER, ASSET, 150, 0), (0, Some(150)));
}

#[test]
fn test_deactivate_and_deposit_checks() {
    let sub = [9u8; 32];
    assert_eq!(deactivate_subaccount(USER, sub, false, false), Err(ENOT_SUBACCOUNT_OWNER));
    assert_eq!(deactivate_subaccount([0u8; 32], sub, true, false), Err(ESUBACCOUNT_DOESNT_EXIST));
    assert_eq!(deposit_funds_to_subaccount(sub, ASSET, 10, None), Err(ESUBACCOUNT_DOESNT_EXIST));
}
