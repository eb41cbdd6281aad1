//! The entry points of subaccount operations, as transactions call them.
use vstd::prelude::*;
use crate::addr_map::is_zero_addr;
use crate::dex_accounts::{
    self, delegate_result, owner_and_active_result, owns, stored_subaccount,
    PermissionType,
};
use crate::perp_engine_api;

verus! {

pub const EBUILDER_SUBACCOUNT_NOT_FOUND: u64 = 1;

/// Creates a secondary subaccount.
pub fn create_new_subaccount(owner: [u8; 32]) -> (r: [u8; 32])
    ensures
        is_zero_addr(r),
{
    dex_accounts::create_new_subaccount_object(owner)
}

/// Delegates trading on all markets and vault trading.
pub fn delegate_all_trading_to_for_subaccount(
    auth: [u8; 32],
    subaccount: [u8; 32],
    account_to_delegate_to: [u8; 32],
    expiration_time_s: Option<u64>,
) -> (r: Result<(), u64>)
    ensures
        r == (match delegate_result(
            auth,
            subaccount,
            PermissionType::TradePerpsAllMarkets,
            expiration_time_s,
        ) {
            Err(e) => Err(e),
            Ok(_) => delegate_result(
                auth,
                subaccount,
                PermissionType::TradeVaultTokens,
                expiration_time_s,
            ),
        }),
{
    dex_accounts::delegate_all_trading_to_for_subaccount(
        auth,
        subaccount,
        account_to_delegate_to,
        expiration_time_s,
    )
}

/// Delegates trading on all markets.
pub fn delegate_perp_trading_to_for_subaccount(
    auth: [u8; 32],
    subaccount: [u8; 32],
    account_to_delegate_to: [u8; 32],
    expiration_time_s: Option<u64>,
) -> (r: Result<(), u64>)
    ensures
        r == delegate_result(
            auth,
            subaccount,
            PermissionType::TradePerpsAllMarkets,
            expiration_time_s,
        ),
{
    dex_accounts::delegate_perp_trading_to_for_subaccount(
        auth,
        subaccount,
        account_to_delegate_to,
        expiration_time_s,
    )
}

/// Delegates trading on one market.
pub fn delegate_perp_trading_to_market_for_subaccount(
    auth: [u8; 32],
    subaccount: [u8; 32],
    account_to_delegate_to: [u8; 32],
    market: [u8; 32],
    expiration_time_s: Option<u64>,
) -> (r: Result<(), u64>)
    ensures
        r == delegate_result(
            auth,
            subaccount,
            PermissionType::TradePerpsOnMarket { market },
            expiration_time_s,
        ),
{
    dex_accounts::delegate_perp_trading_to_market_for_subaccount(
        auth,
        subaccount,
        account_to_delegate_to,
        market,
        expiration_time_s,
    )
}

/// Delegates the right to sub-delegate.
pub fn delegate_ability_to_sub_delegate_to_for_subaccount(
    auth: [u8; 32],
    subaccount: [u8; 32],
    account_to_delegate_to: [u8; 32],
    expiration_time_s: Option<u64>,
) -> (r: Result<(), u64>)
    ensures
        r == delegate_result(auth, subaccount, PermissionType::SubDelegate, expiration_time_s),
{
    dex_accounts::delegate_ability_to_sub_delegate_to_for_subaccount(
        auth,
        subaccount,
        account_to_delegate_to,
        expiration_time_s,
    )
}

/// Revokes one delegate's permissions.
pub fn revoke_delegation(owner: [u8; 32], subaccount: [u8; 32], account_to_revoke: [u8; 32]) -> (r:
    Result<(), u64>)
    ensures
        r == (match owner_and_active_result(owner, subaccount) {
            Err(e) => Err(e),
            Ok(_) => Ok(()),
        }),
{
    dex_accounts::revoke_delegation(owner, subaccount, account_to_revoke)
}

/// Revokes every delegate's permissions.
pub fn revoke_all_delegations(owner: [u8; 32], subaccount: [u8; 32]) -> (r: Result<(), u64>)
    ensures
        r == (match owner_and_active_result(owner, subaccount) {
            Err(e) => Err(e),
            Ok(_) => Ok(()),
        }),
{
    dex_accounts::revoke_all_delegations(owner, subaccount)
}

/// Reactivates a subaccount.
pub fn reactivate_subaccount(owner: [u8; 32], subaccount: [u8; 32]) -> (r: Result<(), u64>)
    ensures
        r == (if owns(owner) {
            Ok(())
        } else {
            Err(dex_accounts::ENOT_SUBACCOUNT_OWNER)
        }),
{
    dex_accounts::reactivate_subaccount(owner, subaccount)
}

/// Moves funds held outside the collateral back to the owner.
pub fn withdraw_from_non_collateral(
    owner: [u8; 32],
    subaccount: [u8; 32],
    metadata: [u8; 32],
    amount: u64,
) {
    dex_accounts::withdraw_from_non_collateral(owner, subaccount, metadata, amount)
}

/// Withdraws from a subaccount to its owner, funds held outside the
/// collateral first; what is left is to be requested from the cross
/// collateral.
pub fn withdraw_from_subaccount(
    owner: [u8; 32],
    subaccount: [u8; 32],
    metadata: [u8; 32],
    amount: u64,
    non_collateral_balance: u64,
) -> (r: (u64, Option<u64>))
    ensures
        non_collateral_balance > 0 && non_collateral_balance >= amount ==> r == (amount, None::<u64>),
        non_collateral_balance > 0 && non_collateral_balance < amount ==> r == (
            non_collateral_balance,
            Some((amount - non_collateral_balance) as u64),
        ),
        non_collateral_balance == 0 ==> r == (0u64, Some(amount)),
{
    dex_accounts::withdraw_from_subaccount(owner, subaccount, metadata, amount, non_collateral_balance)
}

/// Adds to a vault from a subaccount; vault operations are carried out by
/// the host.
pub fn contribute_to_vault(
    _auth: [u8; 32],
    _subaccount: [u8; 32],
    _vault: [u8; 32],
    _metadata: [u8; 32],
    _amount: u64,
) -> (r: Result<(), u64>)
    ensures
        r is Ok,
{
    Ok(())
}

/// Redeems vault shares into a subaccount; vault operations are carried out
/// by the host.
pub fn redeem_from_vault(_auth: [u8; 32], _subaccount: [u8; 32], _vault: [u8; 32], _shares: u64) -> (r:
    Result<(), u64>)
    ensures
        r is Ok,
{
    Ok(())
}

/// Registers a referral code.
pub fn register_referral_code(owner: [u8; 32], referral_code: String) -> (r: Result<(), u64>)
    ensures
        r is Ok,
{
    perp_engine_api::register_referral_code(owner, referral_code)
}

/// Registers the referrer of an account, and creates the account's primary
/// subaccount where it does not exist.
pub fn register_referrer(owner: [u8; 32], referrer_code: String) -> (r: Result<(), u64>)
    ensures
        r is Ok,
{
    match perp_engine_api::register_referrer(owner, referrer_code) {
        Err(e) => {
            return Err(e);
        },
        Ok(_) => {},
    }
    let primary = dex_accounts::primary_subaccount(owner);
    if !dex_accounts::subaccount_exists(primary) {
        let _created = dex_accounts::create_primary_subaccount_object(owner);
    }
    Ok(())
}

/// Withdraws the subaccount's approval of a builder: only its owner may, on
/// an active subaccount.
pub fn revoke_max_builder_fee_for_subaccount(
    owner: [u8; 32],
    subaccount: [u8; 32],
    builder: [u8; 32],
) -> (r: Result<(), u64>)
    ensures
        r == (match owner_and_active_result(owner, subaccount) {
            Err(e) => Err(e),
            Ok(_) => Ok(()),
        }),
{
    let subaccount_signer = match dex_accounts::get_subaccount_signer_if_owner(owner, subaccount) {
        Ok(s) => s,
        Err(e) => {
            return Err(e);
        },
    };
    perp_engine_api::revoke_max_fee(subaccount_signer, builder);
    Ok(())
}

/// Approves the most a builder may charge the subaccount: the builder must be
/// a subaccount, and only the owner of an active subaccount may approve.
pub fn approve_max_builder_fee_for_subaccount(
    auth: [u8; 32],
    subaccount: [u8; 32],
    builder: [u8; 32],
    max_fee: u64,
) -> (r: Result<(), u64>)
    ensures
        r == (if stored_subaccount(builder) is None {
            Err(EBUILDER_SUBACCOUNT_NOT_FOUND)
        } else {
            match owner_and_active_result(auth, subaccount) {
                Err(e) => Err(e),
                Ok(_) => Ok(()),
            }
        }),
{
    if !dex_accounts::subaccount_exists(builder) {
        return Err(EBUILDER_SUBACCOUNT_NOT_FOUND);
    }
    let subaccount_signer = match dex_accounts::get_subaccount_signer_if_owner(auth, subaccount) {
        Ok(s) => s,
        Err(e) => {
            return Err(e);
        },
    };
    perp_engine_api::approve_max_fee(subaccount_signer, builder, max_fee);
    Ok(())
}

} // verus!
