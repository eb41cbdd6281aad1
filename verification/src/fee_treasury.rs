//! The vault that collects trading fees.
use vstd::prelude::*;
use crate::addr_map::{addr_eq, is_zero_addr, zero_addr};

verus! {

pub const EINVALID_ADDRESS: u64 = 2;

pub const ENOT_IMPLEMENTED: u64 = 3;

#[derive(Clone, Copy, Debug)]
pub enum FeeVault {
    V1 { asset_type: [u8; 32], store: [u8; 32], store_extend_ref_address: [u8; 32] },
}

/// A vault for `asset_type`, created by the dex's own address only.
pub fn initialize(
    admin_addr: [u8; 32],
    decibel_dex_addr: [u8; 32],
    asset_type: [u8; 32],
    fee_vault_addr: [u8; 32],
    fungible_store: [u8; 32],
) -> (r: Result<FeeVault, u64>)
    ensures
        admin_addr != decibel_dex_addr ==> r == Err::<FeeVault, u64>(EINVALID_ADDRESS),
        admin_addr == decibel_dex_addr ==> r == Ok::<FeeVault, u64>(
            FeeVault::V1 {
                asset_type,
                store: fungible_store,
                store_extend_ref_address: fee_vault_addr,
            },
        ),
{
    if !addr_eq(&admin_addr, &decibel_dex_addr) {
        return Err(EINVALID_ADDRESS);
    }
    Ok(FeeVault::V1 { asset_type, store: fungible_store, store_extend_ref_address: fee_vault_addr })
}

/// The vault's balance is read from its fungible store, which this library
/// does not hold: the call always reports that it is not available here.
pub fn get_balance(_vault: &FeeVault) -> (r: Result<u64, u64>)
    ensures
        r == Err::<u64, u64>(ENOT_IMPLEMENTED),
{
    Err(ENOT_IMPLEMENTED)
}

pub fn get_fee_vault_address(vault: &FeeVault) -> (r: [u8; 32])
    ensures
        r == match *vault {
            FeeVault::V1 { store_extend_ref_address, .. } => store_extend_ref_address,
        },
{
    match vault {
        FeeVault::V1 { store_extend_ref_address, .. } => *store_extend_ref_address,
    }
}

/// The global vault address is supplied by the host; without it this is the
/// zero address.
pub fn get_fee_vault_address_global() -> (r: [u8; 32])
    ensures
        is_zero_addr(r),
{
    zero_addr()
}

} // verus!
