//! The exchange clock: chain time plus an optional offset that the deployer
//! may advance (used in tests and simulations).
use vstd::prelude::*;
use crate::addr_map::addr_eq;

verus! {

/// Error code for a caller other than the deployer.
pub const EINVALID_AUTHORIZED_ACCOUNT: u64 = 0;

pub const MICRO_CONVERSION_FACTOR: u64 = 1_000_000;

#[derive(Clone, Copy, Debug, PartialEq, Eq, Structural)]
pub enum TimeOverride {
    Offset { time_offset_microseconds: u64 },
}

#[derive(Clone, Copy, Debug)]
pub struct DecibelTimeState {
    pub time_override: Option<TimeOverride>,
    pub chain_now_microseconds: u64,
}

impl DecibelTimeState {
    pub fn new(chain_now_microseconds: u64, time_override: Option<TimeOverride>) -> (r: Self)
        ensures
            r.chain_now_microseconds == chain_now_microseconds,
            r.time_override == time_override,
    {
        Self { time_override, chain_now_microseconds }
    }
}

/// The offset currently added to chain time (zero when none is set).
pub open spec fn offset_of(state: DecibelTimeState) -> int {
    match state.time_override {
        Some(TimeOverride::Offset { time_offset_microseconds }) => time_offset_microseconds as int,
        None => 0,
    }
}

/// Advances the clock by `increment_microseconds`; only the deployer may.
pub fn increment_time(
    state: &mut DecibelTimeState,
    account_address: &[u8; 32],
    deployer_address: &[u8; 32],
    increment_microseconds: u64,
) -> (r: Result<(), u64>)
    requires
        *account_address == *deployer_address ==> offset_of(*old(state)) + increment_microseconds
            <= u64::MAX,
    ensures
        *account_address != *deployer_address ==> r == Err::<(), u64>(
            EINVALID_AUTHORIZED_ACCOUNT,
        ) && *final(state) == *old(state),
        *account_address == *deployer_address ==> r == Ok::<(), u64>(())
            && final(state).chain_now_microseconds == old(state).chain_now_microseconds
            && final(state).time_override.is_some() && offset_of(*final(state)) == offset_of(
            *old(state),
        ) + increment_microseconds,
{
    if !addr_eq(account_address, deployer_address) {
        return Err(EINVALID_AUTHORIZED_ACCOUNT);
    }
    match state.time_override {
        Some(TimeOverride::Offset { time_offset_microseconds }) => {
            state.time_override = Some(
                TimeOverride::Offset {
                    time_offset_microseconds: time_offset_microseconds + increment_microseconds,
                },
            );
            Ok(())
        },
        None => {
            state.time_override = Some(
                TimeOverride::Offset { time_offset_microseconds: increment_microseconds },
            );
            Ok(())
        },
    }
}

/// The current time in microseconds: chain time plus the offset.
pub fn now_microseconds(state: &DecibelTimeState) -> (r: u64)
    requires
        state.chain_now_microseconds + offset_of(*state) <= u64::MAX,
    ensures
        r == state.chain_now_microseconds + offset_of(*state),
{
    match &state.time_override {
        Some(TimeOverride::Offset { time_offset_microseconds }) => state.chain_now_microseconds
            + time_offset_microseconds,
        None => state.chain_now_microseconds,
    }
}

/// The current time in whole seconds.
pub fn now_seconds(state: &DecibelTimeState) -> (r: u64)
    requires
        state.chain_now_microseconds + offset_of(*state) <= u64::MAX,
    ensures
        r == (state.chain_now_microseconds + offset_of(*state)) / (MICRO_CONVERSION_FACTOR as int),
{
    now_microseconds(state) / MICRO_CONVERSION_FACTOR
}

/// The initial override (a zero offset), for the expected deployer only.
pub fn init_module(deployer_address: &[u8; 32], expected_address: &[u8; 32]) -> (r: Result<
    TimeOverride,
    u64,
>)
    ensures
        *deployer_address != *expected_address ==> r == Err::<TimeOverride, u64>(
            EINVALID_AUTHORIZED_ACCOUNT,
        ),
        *deployer_address == *expected_address ==> r == Ok::<TimeOverride, u64>(
            TimeOverride::Offset { time_offset_microseconds: 0 },
        ),
{
    if !addr_eq(deployer_address, expected_address) {
        return Err(EINVALID_AUTHORIZED_ACCOUNT);
    }
    Ok(TimeOverride::Offset { time_offset_microseconds: 0 })
}

/// Advancing the clock moves the current time forward by exactly the
/// increment.
pub proof fn lemma_increment_advances_now(before: DecibelTimeState, after: DecibelTimeState, inc: u64)
    requires
        after.chain_now_microseconds == before.chain_now_microseconds,
        offset_of(after) == offset_of(before) + inc,
    ensures
        after.chain_now_microseconds + offset_of(after) == before.chain_now_microseconds
            + offset_of(before) + inc,
{
}

} // verus!
