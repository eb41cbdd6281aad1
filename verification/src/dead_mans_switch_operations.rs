//! The market-facing entry points of the keep-alive tracker.
use vstd::prelude::*;
use crate::dead_mans_switch_tracker::{self, DeadMansSwitchTracker, refreshed_state, is_order_valid_spec};

verus! {

pub fn keep_alive(
    tracker: &mut DeadMansSwitchTracker,
    parent: [u8; 32],
    market: [u8; 32],
    account: [u8; 32],
    timeout_seconds: u64,
    current_time_secs: u64,
) -> (r: Result<(), u64>)
    requires
        old(tracker).wf(),
        timeout_seconds != 0 && timeout_seconds >= old(tracker).min_keep_alive_time_secs
            ==> current_time_secs + timeout_seconds <= u64::MAX,
    ensures
        final(tracker).wf(),
        final(tracker).min_keep_alive_time_secs == old(tracker).min_keep_alive_time_secs,
        timeout_seconds == 0 ==> r == Ok::<(), u64>(()) && final(tracker).state.view() == old(tracker).state.view().remove(account),
        timeout_seconds != 0 && timeout_seconds < old(tracker).min_keep_alive_time_secs ==> r
            == Err::<(), u64>(dead_mans_switch_tracker::E_KEEP_ALIVE_TIMEOUT_TOO_SHORT) && final(tracker).state.view() == old(tracker).state.view(),
        timeout_seconds != 0 && timeout_seconds >= old(tracker).min_keep_alive_time_secs ==> r
            == Ok::<(), u64>(()) && final(tracker).state.view() == old(tracker).state.view().insert(
            account,
            refreshed_state(
                if old(tracker).state.view().contains_key(account) {
                    Some(old(tracker).state.view()[account])
                } else {
                    None
                },
                timeout_seconds,
                current_time_secs,
            ),
        ),
{
    dead_mans_switch_tracker::keep_alive(
        tracker,
        parent,
        market,
        account,
        timeout_seconds,
        current_time_secs,
    )
}

pub fn is_order_valid(
    tracker: &DeadMansSwitchTracker,
    account: [u8; 32],
    order_creation_time_secs: Option<u64>,
    current_time_secs: u64,
) -> (r: bool)
    requires
        tracker.wf(),
    ensures
        r == is_order_valid_spec(
            tracker.state.view(),
            account,
            order_creation_time_secs,
            current_time_secs,
        ),
{
    dead_mans_switch_tracker::is_order_valid(
        tracker,
        account,
        order_creation_time_secs,
        current_time_secs,
    )
}

pub fn set_min_keep_alive_time_secs(
    tracker: &mut DeadMansSwitchTracker,
    parent: [u8; 32],
    market: [u8; 32],
    min_keep_alive_time_secs: u64,
)
    ensures
        final(tracker).min_keep_alive_time_secs == min_keep_alive_time_secs,
        final(tracker).state == old(tracker).state,
{
    dead_mans_switch_tracker::set_min_keep_alive_time_secs(
        tracker,
        parent,
        market,
        min_keep_alive_time_secs,
    );
}

} // verus!
