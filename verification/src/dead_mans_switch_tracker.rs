//! A per-account keep-alive: once an account sets one, its orders stay valid
//! only while the keep-alive has not expired, and only if they were placed
//! during the current session.
use vstd::prelude::*;
use crate::addr_map::AddrMap;

verus! {

/// Error code for a keep-alive timeout below the market minimum.
pub const E_KEEP_ALIVE_TIMEOUT_TOO_SHORT: u64 = 0;

#[derive(Clone, Copy, Debug, PartialEq, Eq, Structural)]
pub struct KeepAliveState {
    pub session_start_time_secs: u64,
    pub expiration_time_secs: u64,
}

pub struct DeadMansSwitchTracker {
    pub min_keep_alive_time_secs: u64,
    pub state: AddrMap<KeepAliveState>,
}

impl DeadMansSwitchTracker {
    pub open spec fn wf(&self) -> bool {
        self.state.wf()
    }
}

pub fn new_dead_mans_switch_tracker(min_keep_alive_time_secs: u64) -> (r: DeadMansSwitchTracker)
    ensures
        r.wf(),
        r.min_keep_alive_time_secs == min_keep_alive_time_secs,
        r.state.view() == Map::<[u8; 32], KeepAliveState>::empty(),
{
    DeadMansSwitchTracker { min_keep_alive_time_secs, state: AddrMap::new() }
}

pub fn set_min_keep_alive_time_secs(
    tracker: &mut DeadMansSwitchTracker,
    _parent: [u8; 32],
    _market: [u8; 32],
    min_keep_alive_time_secs: u64,
)
    ensures
        final(tracker).min_keep_alive_time_secs == min_keep_alive_time_secs,
        final(tracker).state == old(tracker).state,
{
    tracker.min_keep_alive_time_secs = min_keep_alive_time_secs;
}

/// Whether an order of `account` created at `order_creation_time_secs`
/// (now, when absent) is still valid at `current_time_secs`.
pub open spec fn is_order_valid_spec(
    state: Map<[u8; 32], KeepAliveState>,
    account: [u8; 32],
    order_creation_time_secs: Option<u64>,
    current_time_secs: u64,
) -> bool {
    if !state.contains_key(account) {
        true
    } else {
        let s = state[account];
        let order_time = match order_creation_time_secs {
            Some(t) => t,
            None => current_time_secs,
        };
        s.session_start_time_secs <= order_time && s.expiration_time_secs >= current_time_secs
    }
}

pub fn is_order_valid(
    tracker: &DeadMansSwitchTracker,
    account: [u8; 32],
    order_creation_time_secs: Option<u64>,
    current_time_secs: u64,
) -> (r: bool)
    requires
        tracker.wf(),
    ensures
        r == is_order_valid_spec(
            tracker.state.view(),
            account,
            order_creation_time_secs,
            current_time_secs,
        ),
{
    match tracker.state.get(&account) {
        None => true,
        Some(state) => {
            let order_time = match order_creation_time_secs {
                Some(t) => t,
                None => current_time_secs,
            };
            if state.session_start_time_secs > order_time {
                return false;
            }
            state.expiration_time_secs >= current_time_secs
        },
    }
}

fn disable_keep_alive(
    tracker: &mut DeadMansSwitchTracker,
    _parent: [u8; 32],
    _market: [u8; 32],
    account: [u8; 32],
)
    requires
        old(tracker).wf(),
    ensures
        final(tracker).wf(),
        final(tracker).min_keep_alive_time_secs == old(tracker).min_keep_alive_time_secs,
        final(tracker).state.view() == old(tracker).state.view().remove(account),
{
    let _removed = tracker.state.remove(&account);
}

/// The keep-alive of an account after a call with a non-zero timeout.
pub open spec fn refreshed_state(
    prev: Option<KeepAliveState>,
    timeout_seconds: u64,
    current_time_secs: u64,
) -> KeepAliveState {
    match prev {
        Some(s) => KeepAliveState {
            session_start_time_secs: if current_time_secs > s.expiration_time_secs {
                current_time_secs
            } else {
                s.session_start_time_secs
            },
            expiration_time_secs: (current_time_secs + timeout_seconds) as u64,
        },
        None => KeepAliveState {
            session_start_time_secs: 0,
            expiration_time_secs: (current_time_secs + timeout_seconds) as u64,
        },
    }
}

/// Sets (or, with a zero timeout, removes) the keep-alive of `account`: it
/// now expires `timeout_seconds` from now, and a lapsed keep-alive starts a
/// new session, which invalidates the orders placed before.
pub fn keep_alive(
    tracker: &mut DeadMansSwitchTracker,
    parent: [u8; 32],
    market: [u8; 32],
    account: [u8; 32],
    timeout_seconds: u64,
    current_time_secs: u64,
) -> (r: Result<(), u64>)
    requires
        old(tracker).wf(),
        timeout_seconds != 0 && timeout_seconds >= old(tracker).min_keep_alive_time_secs
            ==> current_time_secs + timeout_seconds <= u64::MAX,
    ensures
        final(tracker).wf(),
        final(tracker).min_keep_alive_time_secs == old(tracker).min_keep_alive_time_secs,
        timeout_seconds == 0 ==> r == Ok::<(), u64>(()) && final(tracker).state.view() == old(tracker).state.view().remove(account),
        timeout_seconds != 0 && timeout_seconds < old(tracker).min_keep_alive_time_secs ==> r
            == Err::<(), u64>(E_KEEP_ALIVE_TIMEOUT_TOO_SHORT) && final(tracker).state.view()
            == old(tracker).state.view(),
        timeout_seconds != 0 && timeout_seconds >= old(tracker).min_keep_alive_time_secs ==> r
            == Ok::<(), u64>(()) && final(tracker).state.view() == old(tracker).state.view().insert(
            account,
            refreshed_state(
                if old(tracker).state.view().contains_key(account) {
                    Some(old(tracker).state.view()[account])
                } else {
                    None
                },
                timeout_seconds,
                current_time_secs,
            ),
        ),
{
    if timeout_seconds == 0 {
        disable_keep_alive(tracker, parent, market, account);
        return Ok(());
    }
    if timeout_seconds < tracker.min_keep_alive_time_secs {
        return Err(E_KEEP_ALIVE_TIMEOUT_TOO_SHORT);
    }
    let expiration_time = current_time_secs + timeout_seconds;
    match tracker.state.get(&account) {
        Some(state) => {
            let mut new_state = *state;
            if current_time_secs > new_state.expiration_time_secs {
                new_state.session_start_time_secs = current_time_secs;
            }
            new_state.expiration_time_secs = expiration_time;
            tracker.state.insert(account, new_state);
        },
        None => {
            tracker.state.insert(
                account,
                KeepAliveState { session_start_time_secs: 0, expiration_time_secs: expiration_time },
            );
        },
    }
    Ok(())
}

/// Right after a keep-alive with a non-zero timeout, an order placed now is
/// valid.
pub proof fn lemma_keep_alive_then_valid(
    prev: Option<KeepAliveState>,
    timeout_seconds: u64,
    now: u64,
)
    requires
        timeout_seconds > 0,
        now + timeout_seconds <= u64::MAX,
        prev matches Some(p) ==> p.session_start_time_secs <= now,
    ensures
        ({
            let s = refreshed_state(prev, timeout_seconds, now);
            s.session_start_time_secs <= now && s.expiration_time_secs >= now
        }),
{
}

/// An order placed before a lapsed keep-alive was renewed is no longer valid.
pub proof fn lemma_lapsed_session_invalidates_older_orders(
    prev: KeepAliveState,
    timeout_seconds: u64,
    now: u64,
    order_time: u64,
)
    requires
        timeout_seconds > 0,
        now + timeout_seconds <= u64::MAX,
        now > prev.expiration_time_secs,
        order_time < now,
    ensures
        refreshed_state(Some(prev), timeout_seconds, now).session_start_time_secs > order_time,
{
}

} // verus!
