//! The narrow interface of the perpetuals engine that account operations use:
//! the restricted capability, builder codes and referral registration.
use vstd::prelude::*;
use crate::builder_code_registry::BuilderCode;

verus! {

pub const ENOT_ADMIN: u64 = 1;

pub const EINVALID_REGISTERING_REFERRAL_CODE_NOT_ALLOWED_DURING_INVITE_ONLY_PERIOD: u64 = 2;

/// The capability to set up new users in the engine.
#[derive(Clone, Copy, Debug)]
pub enum RestrictedPerpApi {
    V1,
}

/// Hands out the restricted capability; the host checks the deployer.
pub fn get_restricted_perp_api(_deployer: [u8; 32]) -> (r: Result<RestrictedPerpApi, u64>)
    ensures
        r is Ok,
{
    Ok(RestrictedPerpApi::V1)
}

/// The builder code named by an optional address and fee: none without an
/// address, and a fee of zero where none is given.
pub fn get_builder_code_if_provided(builder_address: Option<[u8; 32]>, builder_fees: Option<u64>) -> (r:
    Option<BuilderCode>)
    ensures
        builder_address is None ==> r is None,
        builder_address matches Some(addr) ==> (r matches Some(code) && code.builder == addr
            && code.fees == (match builder_fees {
            Some(f) => f,
            None => 0,
        })),
{
    match builder_address {
        Some(addr) => {
            let fees = match builder_fees {
                Some(f) => f,
                None => 0,
            };
            Some(BuilderCode { builder: addr, fees })
        },
        None => None,
    }
}

/// A builder code for `builder` charging `fees`.
pub fn new_builder_code(builder: [u8; 32], fees: u64) -> (r: BuilderCode)
    ensures
        r.builder == builder,
        r.fees == fees,
{
    BuilderCode { builder, fees }
}

/// Records the most a builder may charge an account; the host applies the
/// write to the account's registry.
pub fn approve_max_fee(_account: [u8; 32], _builder: [u8; 32], _max_fee: u64) {
}

/// Withdraws an account's approval of a builder; the host applies the write.
pub fn revoke_max_fee(_account: [u8; 32], _builder: [u8; 32]) {
}

/// Registers a referral code; the host applies it.
pub fn register_referral_code(_account: [u8; 32], _referral_code: String) -> (r: Result<(), u64>)
    ensures
        r is Ok,
{
    Ok(())
}

/// Registers the referrer of an account; the host applies it.
pub fn register_referrer(_account: [u8; 32], _referrer_code: String) -> (r: Result<(), u64>)
    ensures
        r is Ok,
{
    Ok(())
}

} // verus!
