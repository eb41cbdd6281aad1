//! Prices pushed by the exchange itself, with the time of the last update.
use vstd::prelude::*;

verus! {

#[derive(Clone, Copy, Debug, PartialEq, Eq, Structural)]
pub enum InternalSourceState {
    V1 { spot_price: u64, update_time: u64 },
}

#[derive(Clone, Copy, Debug)]
pub enum InternalSourceIdentifier {
    V1 { object_address: [u8; 32] },
}

pub fn update_internal_source_price(
    state: &mut InternalSourceState,
    new_value: u64,
    current_time_secs: u64,
)
    ensures
        *final(state) == (InternalSourceState::V1 {
            spot_price: new_value,
            update_time: current_time_secs,
        }),
{
    *state = InternalSourceState::V1 { spot_price: new_value, update_time: current_time_secs };
}

pub fn get_internal_source_data(state: &InternalSourceState) -> (r: (u64, u64))
    ensures
        r == match *state {
            InternalSourceState::V1 { spot_price, update_time } => (spot_price, update_time),
        },
{
    let InternalSourceState::V1 { spot_price, update_time } = state;
    (*spot_price, *update_time)
}

/// Reading back an update gives the price and time that were written.
pub proof fn lemma_update_then_read(price: u64, time: u64)
    ensures
        (match (InternalSourceState::V1 { spot_price: price, update_time: time }) {
            InternalSourceState::V1 { spot_price, update_time } => (spot_price, update_time),
        }) == (price, time),
{
}

} // verus!
