//! The backstop liquidations that are still in progress, one per account.
use vstd::prelude::*;
use crate::addr_map::{AddrMap, addr_eq};

verus! {

pub const EINVALID_AUTHORIZED_ACCOUNT: u64 = 1;

#[derive(Clone, Copy, Debug, PartialEq, Eq, Structural)]
pub enum BackstopLiquidationContinuation {
    V1 { continuation_in_progress: bool, accumulated_negative_attribution: i64 },
}

pub enum GlobalLiquidationState {
    V1 { pending_continuations: AddrMap<BackstopLiquidationContinuation> },
}

impl GlobalLiquidationState {
    pub open spec fn continuations(&self) -> AddrMap<BackstopLiquidationContinuation> {
        self->pending_continuations
    }

    pub open spec fn wf(&self) -> bool {
        self.continuations().wf()
    }

    /// The pending continuation of each account.
    pub open spec fn view(&self) -> Map<[u8; 32], BackstopLiquidationContinuation> {
        self.continuations().view()
    }
}

pub fn default_backstop_liquidation_continuation() -> (r: BackstopLiquidationContinuation)
    ensures
        r == (BackstopLiquidationContinuation::V1 {
            continuation_in_progress: false,
            accumulated_negative_attribution: 0,
        }),
{
    BackstopLiquidationContinuation::V1 {
        continuation_in_progress: false,
        accumulated_negative_attribution: 0,
    }
}

pub fn is_continuation_in_progress(cont: &BackstopLiquidationContinuation) -> (r: bool)
    ensures
        r == match *cont {
            BackstopLiquidationContinuation::V1 { continuation_in_progress, .. } =>
                continuation_in_progress,
        },
{
    let BackstopLiquidationContinuation::V1 { continuation_in_progress, .. } = cont;
    *continuation_in_progress
}

pub fn get_accumulated_negative_attribution(cont: &BackstopLiquidationContinuation) -> (r: i64)
    ensures
        r == match *cont {
            BackstopLiquidationContinuation::V1 { accumulated_negative_attribution, .. } =>
                accumulated_negative_attribution,
        },
{
    let BackstopLiquidationContinuation::V1 { accumulated_negative_attribution, .. } = cont;
    *accumulated_negative_attribution
}

pub fn update_continuation(
    cont: &mut BackstopLiquidationContinuation,
    new_continuation_in_progress: bool,
    new_accumulated_negative_attribution: i64,
)
    ensures
        *final(cont) == (BackstopLiquidationContinuation::V1 {
            continuation_in_progress: new_continuation_in_progress,
            accumulated_negative_attribution: new_accumulated_negative_attribution,
        }),
{
    *cont = BackstopLiquidationContinuation::V1 {
        continuation_in_progress: new_continuation_in_progress,
        accumulated_negative_attribution: new_accumulated_negative_attribution,
    };
}

/// An empty state, for the dex's own address only.
pub fn initialize(admin_addr: [u8; 32], decibel_dex_addr: [u8; 32]) -> (r: Result<
    GlobalLiquidationState,
    u64,
>)
    ensures
        admin_addr != decibel_dex_addr ==> r is Err && r == Err::<GlobalLiquidationState, u64>(
            EINVALID_AUTHORIZED_ACCOUNT,
        ),
        admin_addr == decibel_dex_addr ==> (r matches Ok(s) && s.wf() && s.view() == Map::<
            [u8; 32],
            BackstopLiquidationContinuation,
        >::empty()),
{
    if !addr_eq(&admin_addr, &decibel_dex_addr) {
        return Err(EINVALID_AUTHORIZED_ACCOUNT);
    }
    Ok(GlobalLiquidationState::V1 { pending_continuations: AddrMap::new() })
}

pub fn has_pending_continuation(state: &GlobalLiquidationState, account: [u8; 32]) -> (r: bool)
    requires
        state.wf(),
    ensures
        r == state.view().contains_key(account),
{
    let GlobalLiquidationState::V1 { pending_continuations } = state;
    pending_continuations.contains_key(&account)
}

pub fn set_continuation(
    state: &mut GlobalLiquidationState,
    account: [u8; 32],
    continuation: BackstopLiquidationContinuation,
)
    requires
        old(state).wf(),
    ensures
        final(state).wf(),
        final(state).view() == old(state).view().insert(account, continuation),
{
    let GlobalLiquidationState::V1 { pending_continuations } = state;
    pending_continuations.insert(account, continuation);
}

pub fn remove_continuation(state: &mut GlobalLiquidationState, account: [u8; 32]) -> (r: Option<
    BackstopLiquidationContinuation,
>)
    requires
        old(state).wf(),
    ensures
        final(state).wf(),
        final(state).view() == old(state).view().remove(account),
        r == if old(state).view().contains_key(account) {
            Some(old(state).view()[account])
        } else {
            None
        },
{
    let GlobalLiquidationState::V1 { pending_continuations } = state;
    pending_continuations.remove(&account)
}

/// A continuation that was set is found, and removing it gives it back.
pub proof fn lemma_set_then_remove(
    before: Map<[u8; 32], BackstopLiquidationContinuation>,
    account: [u8; 32],
    c: BackstopLiquidationContinuation,
)
    ensures
        before.insert(account, c).contains_key(account),
        before.insert(account, c)[account] == c,
        before.insert(account, c).remove(account) == before.remove(account),
{
    assert(before.insert(account, c).remove(account) =~= before.remove(account));
}

} // verus!
