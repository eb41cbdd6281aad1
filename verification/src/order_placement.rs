//! The result of placing an order in a market and matching it.
use vstd::prelude::*;
use crate::market_types::{
    order_cancellation_reason_clearinghouse_stopped_matching,
    order_cancellation_reason_ioc_violation, order_cancellation_reason_max_fill_limit_violation,
    OrderCancellationReason,
};
use crate::order_book_types::{OrderId, TimeInForce};

verus! {

pub const EINVALID_ORDER: u64 = 1;

pub const ECLEARINGHOUSE_SETTLEMENT_VIOLATION: u64 = 2;

pub const ECLIENT_ORDER_ID_LENGTH_EXCEEDED: u64 = 3;

pub const MAX_CLIENT_ORDER_ID_LENGTH: u64 = 32;

/// The outcome of placing and matching an order: its id, the size left, why
/// it was cancelled (if it was), the callbacks' results, the size of each
/// fill and the number of matches.
#[derive(Clone, Debug)]
pub enum OrderMatchResult<R: Clone> {
    V1 {
        order_id: OrderId,
        remaining_size: u64,
        cancel_reason: Option<OrderCancellationReason>,
        callback_results: Vec<R>,
        fill_sizes: Vec<u64>,
        match_count: u32,
    },
}

pub fn destroy_order_match_result<R: Clone>(result: OrderMatchResult<R>) -> (r: (
    OrderId,
    u64,
    Option<OrderCancellationReason>,
    Vec<R>,
    Vec<u64>,
    u32,
))
    ensures
        r == (
            result->order_id,
            result->remaining_size,
            result->cancel_reason,
            result->callback_results,
            result->fill_sizes,
            result->match_count,
        ),
{
    let OrderMatchResult::V1 {
        order_id,
        remaining_size,
        cancel_reason,
        callback_results,
        fill_sizes,
        match_count,
    } = result;
    (order_id, remaining_size, cancel_reason, callback_results, fill_sizes, match_count)
}

/// The number of fills.
pub fn number_of_fills<R: Clone>(result: &OrderMatchResult<R>) -> (r: u64)
    ensures
        r == result->fill_sizes@.len(),
{
    let OrderMatchResult::V1 { fill_sizes, .. } = result;
    fill_sizes.len() as u64
}

pub fn number_of_matches<R: Clone>(result: &OrderMatchResult<R>) -> (r: u32)
    ensures
        r == result->match_count,
{
    let OrderMatchResult::V1 { match_count, .. } = result;
    *match_count
}

pub fn get_order_id_from_result<R: Clone>(result: &OrderMatchResult<R>) -> (r: OrderId)
    ensures
        r == result->order_id,
{
    let OrderMatchResult::V1 { order_id, .. } = result;
    *order_id
}

pub fn is_ioc_violation(reason: OrderCancellationReason) -> (r: bool)
    ensures
        r == (reason == OrderCancellationReason::IOCViolation),
{
    reason == order_cancellation_reason_ioc_violation()
}

pub fn is_fill_limit_violation(reason: OrderCancellationReason) -> (r: bool)
    ensures
        r == (reason == OrderCancellationReason::MaxFillLimitViolation),
{
    reason == order_cancellation_reason_max_fill_limit_violation()
}

pub fn is_clearinghouse_stopped_matching(reason: OrderCancellationReason) -> (r: bool)
    ensures
        r == (reason == OrderCancellationReason::ClearinghouseStoppedMatching),
{
    reason == order_cancellation_reason_clearinghouse_stopped_matching()
}


// ------------------------------------------------------------------
// Placing an order: the decisions between the calls into the book and
// the clearinghouse, each a step from what those calls answered to what
// the caller does next.
// ------------------------------------------------------------------

/// Whether the order's sizes, match limit, price and client order id are
/// acceptable: sizes positive with the remaining size at most the
/// original, a positive match limit and price, and a client order id of at
/// most 32 bytes.
pub open spec fn order_params_spec(
    orig_size: u64,
    remaining_size: u64,
    max_match_limit: u32,
    limit_price: u64,
    client_order_id_len: Option<usize>,
) -> Result<(), u64> {
    if !(orig_size > 0 && remaining_size > 0 && orig_size >= remaining_size) || max_match_limit == 0
        || limit_price == 0 {
        Err(EINVALID_ORDER)
    } else if client_order_id_len matches Some(l) && l > MAX_CLIENT_ORDER_ID_LENGTH {
        Err(ECLIENT_ORDER_ID_LENGTH_EXCEEDED)
    } else {
        Ok(())
    }
}

/// Checks an order's parameters before placement.
pub fn check_order_params(
    orig_size: u64,
    remaining_size: u64,
    max_match_limit: u32,
    limit_price: u64,
    client_order_id_len: Option<usize>,
) -> (r: Result<(), u64>)
    ensures
        r == order_params_spec(orig_size, remaining_size, max_match_limit, limit_price, client_order_id_len),
{
    if !(orig_size > 0 && remaining_size > 0 && orig_size >= remaining_size) || max_match_limit == 0
        || limit_price == 0 {
        return Err(EINVALID_ORDER);
    }
    if let Some(l) = client_order_id_len {
        if l as u64 > MAX_CLIENT_ORDER_ID_LENGTH {
            return Err(ECLIENT_ORDER_ID_LENGTH_EXCEEDED);
        }
    }
    Ok(())
}

/// How a placement ends: the size left on the book, why the order was
/// cancelled (if it was), whether the taker order is cleaned up with the
/// clearinghouse at its remaining size, whether it is put on the book as a
/// maker, and whether it is cleaned up as fully filled.
#[derive(Clone, Copy, Debug, PartialEq, Eq, Structural)]
pub struct PlacementEnd {
    pub remaining_size: u64,
    pub cancel_reason: Option<OrderCancellationReason>,
    pub cleanup: bool,
    pub place_in_book: bool,
    pub cleanup_filled: bool,
}

/// The end of a placement that is cancelled for `reason`, the order being
/// cleaned up with the clearinghouse.
pub open spec fn cancelled_end(reason: OrderCancellationReason) -> PlacementEnd {
    PlacementEnd {
        remaining_size: 0,
        cancel_reason: Some(reason),
        cleanup: true,
        place_in_book: false,
        cleanup_filled: false,
    }
}

/// What placing an order starts with.
#[derive(Clone, Copy, Debug, PartialEq, Eq, Structural)]
pub enum PlacementStart {
    /// The placement ends here.
    End(PlacementEnd),
    /// A triggered order goes on the book as it is, with no callback.
    PlaceTriggered,
    /// The clearinghouse is asked to take the order as a maker.
    AskMaker,
    /// The order matches against the book.
    Match,
}

/// The first decision of a placement: a failed validation, a client order
/// id already in use, a maker order that is immediate-or-cancel without a
/// trigger, or a taker order that is post-only is cancelled; else a
/// triggered maker order is placed directly, an untriggered maker order is
/// offered to the clearinghouse, and a taker order matches.
pub open spec fn placement_start_spec(
    validation_ok: bool,
    client_order_id_taken: bool,
    is_taker: bool,
    time_in_force: TimeInForce,
    has_trigger: bool,
) -> PlacementStart {
    if !validation_ok {
        PlacementStart::End(cancelled_end(OrderCancellationReason::PositionUpdateViolation))
    } else if client_order_id_taken {
        PlacementStart::End(cancelled_end(OrderCancellationReason::DuplicateClientOrderIdViolation))
    } else if !is_taker {
        if time_in_force == TimeInForce::IOC && !has_trigger {
            PlacementStart::End(cancelled_end(OrderCancellationReason::IOCViolation))
        } else if has_trigger {
            PlacementStart::PlaceTriggered
        } else {
            PlacementStart::AskMaker
        }
    } else if time_in_force == TimeInForce::POST_ONLY {
        PlacementStart::End(cancelled_end(OrderCancellationReason::PostOnlyViolation))
    } else {
        PlacementStart::Match
    }
}

/// Decides how a placement starts, from the clearinghouse's validation,
/// whether the client order id is already in use, and whether the order
/// would take from the book.
pub fn placement_start(
    validation_ok: bool,
    client_order_id_taken: bool,
    is_taker: bool,
    time_in_force: TimeInForce,
    has_trigger: bool,
) -> (r: PlacementStart)
    ensures
        r == placement_start_spec(validation_ok, client_order_id_taken, is_taker, time_in_force, has_trigger),
        validation_ok && !client_order_id_taken && is_taker ==> (r == PlacementStart::Match
            <==> time_in_force != TimeInForce::POST_ONLY),
        validation_ok && !client_order_id_taken && is_taker && time_in_force == TimeInForce::POST_ONLY
            ==> r == PlacementStart::End(cancelled_end(OrderCancellationReason::PostOnlyViolation)),
{
    if !validation_ok {
        return PlacementStart::End(
            PlacementEnd {
                remaining_size: 0,
                cancel_reason: Some(OrderCancellationReason::PositionUpdateViolation),
                cleanup: true,
                place_in_book: false,
                cleanup_filled: false,
            },
        );
    }
    if client_order_id_taken {
        return PlacementStart::End(
            PlacementEnd {
                remaining_size: 0,
                cancel_reason: Some(OrderCancellationReason::DuplicateClientOrderIdViolation),
                cleanup: true,
                place_in_book: false,
                cleanup_filled: false,
            },
        );
    }
    if !is_taker {
        if time_in_force == TimeInForce::IOC && !has_trigger {
            return PlacementStart::End(
                PlacementEnd {
                    remaining_size: 0,
                    cancel_reason: Some(OrderCancellationReason::IOCViolation),
                    cleanup: true,
                    place_in_book: false,
                    cleanup_filled: false,
                },
            );
        }
        if has_trigger {
            return PlacementStart::PlaceTriggered;
        }
        return PlacementStart::AskMaker;
    }
    if time_in_force == TimeInForce::POST_ONLY {
        return PlacementStart::End(
            PlacementEnd {
                remaining_size: 0,
                cancel_reason: Some(OrderCancellationReason::PostOnlyViolation),
                cleanup: true,
                place_in_book: false,
                cleanup_filled: false,
            },
        );
    }
    PlacementStart::Match
}

/// A taker order whose validation passed and whose client order id is free
/// is cancelled at the start only when it is post-only, and then for
/// violating post-only; immediate-or-cancel and good-till-cancelled takers
/// go on to match against the book.
pub proof fn lemma_taker_start_matches_unless_post_only(time_in_force: TimeInForce, has_trigger: bool)
    ensures
        (placement_start_spec(true, false, true, time_in_force, has_trigger) == PlacementStart::Match)
            <==> time_in_force != TimeInForce::POST_ONLY,
        time_in_force == TimeInForce::POST_ONLY ==> placement_start_spec(
            true,
            false,
            true,
            time_in_force,
            has_trigger,
        ) == PlacementStart::End(cancelled_end(OrderCancellationReason::PostOnlyViolation)),
        placement_start_spec(true, false, true, TimeInForce::IOC, has_trigger) == PlacementStart::Match,
        placement_start_spec(true, false, true, TimeInForce::GTC, has_trigger) == PlacementStart::Match,
{
}

/// Only a taker order matches, and only a maker order is placed directly
/// (when it has a trigger) or offered to the clearinghouse (when it has
/// none); a failed validation or a client order id in use always ends the
/// placement at once; and a placement that ends at the start leaves nothing
/// on the book, cleans the order up, and gives a reason.
pub proof fn lemma_placement_start_outcomes(
    validation_ok: bool,
    client_order_id_taken: bool,
    is_taker: bool,
    time_in_force: TimeInForce,
    has_trigger: bool,
)
    ensures
        ({
            let r = placement_start_spec(
                validation_ok,
                client_order_id_taken,
                is_taker,
                time_in_force,
                has_trigger,
            );
            &&& r is Match ==> validation_ok && !client_order_id_taken && is_taker
            &&& r is PlaceTriggered ==> validation_ok && !client_order_id_taken && !is_taker
                && has_trigger
            &&& r is AskMaker ==> validation_ok && !client_order_id_taken && !is_taker
                && !has_trigger && time_in_force != TimeInForce::IOC
            &&& !validation_ok ==> r == PlacementStart::End(
                cancelled_end(OrderCancellationReason::PositionUpdateViolation),
            )
            &&& validation_ok && client_order_id_taken ==> r == PlacementStart::End(
                cancelled_end(OrderCancellationReason::DuplicateClientOrderIdViolation),
            )
            &&& r matches PlacementStart::End(e) ==> e.remaining_size == 0 && e.cleanup
                && !e.place_in_book && !e.cleanup_filled && e.cancel_reason is Some
        }),
{
}

/// How a placement ends once the clearinghouse answered the offer of the
/// order as a maker with `remaining` left: cancelled and cleaned up where
/// it refused, else put on the book.
pub fn maker_offer_end(refused: bool, remaining: u64) -> (r: PlacementEnd)
    ensures
        refused ==> r == cancelled_end(OrderCancellationReason::PlaceMakerOrderViolation),
        !refused ==> r == (PlacementEnd {
            remaining_size: remaining,
            cancel_reason: None,
            cleanup: false,
            place_in_book: true,
            cleanup_filled: false,
        }),
{
    if refused {
        PlacementEnd {
            remaining_size: 0,
            cancel_reason: Some(OrderCancellationReason::PlaceMakerOrderViolation),
            cleanup: true,
            place_in_book: false,
            cleanup_filled: false,
        }
    } else {
        PlacementEnd {
            remaining_size: remaining,
            cancel_reason: None,
            cleanup: false,
            place_in_book: true,
            cleanup_filled: false,
        }
    }
}

/// The state of a taker order's matching: the size left, the size of each
/// fill so far, and the number of matches.
pub struct MatchLoop {
    pub remaining: u64,
    pub fill_sizes: Vec<u64>,
    pub match_count: u32,
}

/// The start of matching with `remaining` to fill.
pub fn new_match_loop(remaining: u64) -> (r: MatchLoop)
    ensures
        r.remaining == remaining,
        r.fill_sizes@ == Seq::<u64>::empty(),
        r.match_count == 0,
{
    MatchLoop { remaining, fill_sizes: Vec::new(), match_count: 0 }
}

/// What happens to the maker order of a match.
#[derive(Clone, Copy, Debug, PartialEq, Eq, Structural)]
pub enum MakerAction {
    /// Nothing: the maker keeps the rest of its order on the book.
    Nothing,
    /// The unsettled part of the match goes back on the book.
    Reinsert { size: u64 },
    /// The maker is cancelled: taken off the book where it has size left
    /// there, and cleaned up with its unsettled and remaining size.
    CancelAndCleanup { cancel_in_book: bool, cleanup_size: u64 },
    /// The maker is fully filled and is cleaned up.
    CleanupFilled,
}

/// The maker's fate after a match of which `unsettled` was not settled and
/// `maker_remaining` is left on the book: cancelled where the
/// clearinghouse cancelled it, else the unsettled part reinserted, else
/// cleaned up where nothing is left.
pub open spec fn maker_action_spec(maker_cancelled: bool, unsettled: int, maker_remaining: int) -> MakerAction {
    if maker_cancelled {
        MakerAction::CancelAndCleanup {
            cancel_in_book: maker_remaining != 0,
            cleanup_size: (unsettled + maker_remaining) as u64,
        }
    } else if unsettled > 0 {
        MakerAction::Reinsert { size: unsettled as u64 }
    } else if maker_remaining == 0 {
        MakerAction::CleanupFilled
    } else {
        MakerAction::Nothing
    }
}

/// One match settled: the match counted, the settled size taken off the
/// taker and recorded as a fill (where positive), the maker's fate, and
/// the end of the placement where the clearinghouse cancelled the taker (a
/// settlement violation, cleaned up) or nothing is left (cleaned up as
/// filled).
#[verifier::rlimit(20)]
pub fn settle_match(
    st: &mut MatchLoop,
    maker_matched_size: u64,
    maker_remaining_size: u64,
    settled_size: u64,
    taker_cancelled: bool,
    maker_cancelled: bool,
) -> (r: (MakerAction, Option<PlacementEnd>))
    requires
        settled_size <= maker_matched_size,
        settled_size <= old(st).remaining,
        old(st).match_count < u32::MAX,
        maker_cancelled ==> maker_matched_size - settled_size + maker_remaining_size <= u64::MAX,
    ensures
        final(st).match_count == old(st).match_count + 1,
        final(st).remaining == old(st).remaining - settled_size,
        final(st).fill_sizes@ == if settled_size > 0 {
            old(st).fill_sizes@.push(settled_size)
        } else {
            old(st).fill_sizes@
        },
        r.0 == maker_action_spec(maker_cancelled, maker_matched_size - settled_size, maker_remaining_size as int),
        r.1 == if taker_cancelled {
            Some(cancelled_end(OrderCancellationReason::ClearinghouseSettleViolation))
        } else if old(st).remaining - settled_size == 0 {
            Some(
                PlacementEnd {
                    remaining_size: 0,
                    cancel_reason: None,
                    cleanup: false,
                    place_in_book: false,
                    cleanup_filled: true,
                },
            )
        } else {
            None
        },
{
    st.match_count = st.match_count + 1;
    let mut unsettled = maker_matched_size;
    if settled_size > 0 {
        st.remaining = st.remaining - settled_size;
        unsettled = unsettled - settled_size;
        st.fill_sizes.push(settled_size);
    }
    let action = if maker_cancelled {
        MakerAction::CancelAndCleanup {
            cancel_in_book: maker_remaining_size != 0,
            cleanup_size: unsettled + maker_remaining_size,
        }
    } else if unsettled > 0 {
        MakerAction::Reinsert { size: unsettled }
    } else if maker_remaining_size == 0 {
        MakerAction::CleanupFilled
    } else {
        MakerAction::Nothing
    };
    if taker_cancelled {
        return (
            action,
            Some(
                PlacementEnd {
                    remaining_size: 0,
                    cancel_reason: Some(OrderCancellationReason::ClearinghouseSettleViolation),
                    cleanup: true,
                    place_in_book: false,
                    cleanup_filled: false,
                },
            ),
        );
    }
    if st.remaining == 0 {
        return (
            action,
            Some(
                PlacementEnd {
                    remaining_size: 0,
                    cancel_reason: None,
                    cleanup: false,
                    place_in_book: false,
                    cleanup_filled: true,
                },
            ),
        );
    }
    (action, None)
}

/// What matching does after a settled match that left the taker with size
/// and the maker's fate applied.
#[derive(Clone, Copy, Debug, PartialEq, Eq, Structural)]
pub enum LoopStep {
    /// The placement ends here.
    End(PlacementEnd),
    /// The taker no longer crosses and is offered to the clearinghouse as a
    /// maker.
    AskMaker,
    /// The next match.
    Continue,
}

/// The step after a match: a taker that no longer crosses is cancelled as
/// immediate-or-cancel or offered as a maker; else at the match limit, or
/// where the clearinghouse asked to stop, matching ends with that reason,
/// the rest cancelled and cleaned up or left as it is as
/// `cancel_on_stop_matching` says; else matching goes on.
pub open spec fn next_step_spec(
    remaining: u64,
    match_count: u32,
    still_taker: bool,
    time_in_force: TimeInForce,
    should_stop: bool,
    max_match_limit: u32,
    cancel_on_stop_matching: bool,
) -> LoopStep {
    if !still_taker {
        if time_in_force == TimeInForce::IOC {
            LoopStep::End(cancelled_end(OrderCancellationReason::IOCViolation))
        } else {
            LoopStep::AskMaker
        }
    } else if match_count >= max_match_limit || should_stop {
        let reason = if match_count >= max_match_limit {
            OrderCancellationReason::MaxFillLimitViolation
        } else {
            OrderCancellationReason::ClearinghouseStoppedMatching
        };
        if cancel_on_stop_matching {
            LoopStep::End(cancelled_end(reason))
        } else {
            LoopStep::End(
                PlacementEnd {
                    remaining_size: remaining,
                    cancel_reason: Some(reason),
                    cleanup: false,
                    place_in_book: false,
                    cleanup_filled: false,
                },
            )
        }
    } else {
        LoopStep::Continue
    }
}

/// Decides the step after a match, from whether the taker still crosses the
/// book and whether the clearinghouse asked to stop.
pub fn next_step(
    st: &MatchLoop,
    still_taker: bool,
    time_in_force: TimeInForce,
    should_stop: bool,
    max_match_limit: u32,
    cancel_on_stop_matching: bool,
) -> (r: LoopStep)
    ensures
        r == next_step_spec(
            st.remaining,
            st.match_count,
            still_taker,
            time_in_force,
            should_stop,
            max_match_limit,
            cancel_on_stop_matching,
        ),
{
    if !still_taker {
        if time_in_force == TimeInForce::IOC {
            return LoopStep::End(
                PlacementEnd {
                    remaining_size: 0,
                    cancel_reason: Some(OrderCancellationReason::IOCViolation),
                    cleanup: true,
                    place_in_book: false,
                    cleanup_filled: false,
                },
            );
        }
        return LoopStep::AskMaker;
    }
    if st.match_count >= max_match_limit || should_stop {
        let reason = if st.match_count >= max_match_limit {
            OrderCancellationReason::MaxFillLimitViolation
        } else {
            OrderCancellationReason::ClearinghouseStoppedMatching
        };
        if cancel_on_stop_matching {
            return LoopStep::End(
                PlacementEnd {
                    remaining_size: 0,
                    cancel_reason: Some(reason),
                    cleanup: true,
                    place_in_book: false,
                    cleanup_filled: false,
                },
            );
        }
        return LoopStep::End(
            PlacementEnd {
                remaining_size: st.remaining,
                cancel_reason: Some(reason),
                cleanup: false,
                place_in_book: false,
                cleanup_filled: false,
            },
        );
    }
    LoopStep::Continue
}

} // verus!
