//! The vocabulary shared by a market and its clearinghouse: why orders are
//! cancelled, order statuses, and what the clearinghouse answers when it
//! settles a trade, validates an order or places a maker order.
use vstd::prelude::*;

verus! {

#[derive(Clone, Copy, Debug, PartialEq, Eq, Structural)]
pub enum OrderCancellationReason {
    PostOnlyViolation,
    IOCViolation,
    PositionUpdateViolation,
    ReduceOnlyViolation,
    ClearinghouseSettleViolation,
    MaxFillLimitViolation,
    DuplicateClientOrderIdViolation,
    OrderPreCancelled,
    PlaceMakerOrderViolation,
    DeadMansSwitchExpired,
    DisallowedSelfTrading,
    OrderCancelledByUser,
    OrderCancelledBySystem,
    OrderCancelledBySystemDueToError,
    ClearinghouseStoppedMatching,
}

pub fn order_cancellation_reason_post_only_violation() -> (r: OrderCancellationReason)
    ensures
        r == OrderCancellationReason::PostOnlyViolation,
{
    OrderCancellationReason::PostOnlyViolation
}

pub fn order_cancellation_reason_ioc_violation() -> (r: OrderCancellationReason)
    ensures
        r == OrderCancellationReason::IOCViolation,
{
    OrderCancellationReason::IOCViolation
}

pub fn order_cancellation_reason_position_update_violation() -> (r: OrderCancellationReason)
    ensures
        r == OrderCancellationReason::PositionUpdateViolation,
{
    OrderCancellationReason::PositionUpdateViolation
}

pub fn order_cancellation_reason_clearinghouse_settle_violation() -> (r: OrderCancellationReason)
    ensures
        r == OrderCancellationReason::ClearinghouseSettleViolation,
{
    OrderCancellationReason::ClearinghouseSettleViolation
}

pub fn order_cancellation_reason_max_fill_limit_violation() -> (r: OrderCancellationReason)
    ensures
        r == OrderCancellationReason::MaxFillLimitViolation,
{
    OrderCancellationReason::MaxFillLimitViolation
}

pub fn order_cancellation_reason_duplicate_client_order_id() -> (r: OrderCancellationReason)
    ensures
        r == OrderCancellationReason::DuplicateClientOrderIdViolation,
{
    OrderCancellationReason::DuplicateClientOrderIdViolation
}

pub fn order_cancellation_reason_order_pre_cancelled() -> (r: OrderCancellationReason)
    ensures
        r == OrderCancellationReason::OrderPreCancelled,
{
    OrderCancellationReason::OrderPreCancelled
}

pub fn order_cancellation_reason_place_maker_order_violation() -> (r: OrderCancellationReason)
    ensures
        r == OrderCancellationReason::PlaceMakerOrderViolation,
{
    OrderCancellationReason::PlaceMakerOrderViolation
}

pub fn order_cancellation_reason_dead_mans_switch_expired() -> (r: OrderCancellationReason)
    ensures
        r == OrderCancellationReason::DeadMansSwitchExpired,
{
    OrderCancellationReason::DeadMansSwitchExpired
}

pub fn order_cancellation_reason_disallowed_self_trading() -> (r: OrderCancellationReason)
    ensures
        r == OrderCancellationReason::DisallowedSelfTrading,
{
    OrderCancellationReason::DisallowedSelfTrading
}

pub fn order_cancellation_reason_cancelled_by_user() -> (r: OrderCancellationReason)
    ensures
        r == OrderCancellationReason::OrderCancelledByUser,
{
    OrderCancellationReason::OrderCancelledByUser
}

pub fn order_cancellation_reason_cancelled_by_system() -> (r: OrderCancellationReason)
    ensures
        r == OrderCancellationReason::OrderCancelledBySystem,
{
    OrderCancellationReason::OrderCancelledBySystem
}

pub fn order_cancellation_reason_cancelled_by_system_due_to_error() -> (r: OrderCancellationReason)
    ensures
        r == OrderCancellationReason::OrderCancelledBySystemDueToError,
{
    OrderCancellationReason::OrderCancelledBySystemDueToError
}

pub fn order_cancellation_reason_clearinghouse_stopped_matching() -> (r: OrderCancellationReason)
    ensures
        r == OrderCancellationReason::ClearinghouseStoppedMatching,
{
    OrderCancellationReason::ClearinghouseStoppedMatching
}

#[derive(Clone, Copy, Debug, PartialEq, Eq, Structural)]
pub enum OrderStatus {
    Open,
    Filled,
    Cancelled,
    Rejected,
    SizeReduced,
    Acknowledged,
}

pub fn order_status_open() -> (r: OrderStatus)
    ensures
        r == OrderStatus::Open,
{
    OrderStatus::Open
}

pub fn order_status_filled() -> (r: OrderStatus)
    ensures
        r == OrderStatus::Filled,
{
    OrderStatus::Filled
}

pub fn order_status_cancelled() -> (r: OrderStatus)
    ensures
        r == OrderStatus::Cancelled,
{
    OrderStatus::Cancelled
}

pub fn order_status_rejected() -> (r: OrderStatus)
    ensures
        r == OrderStatus::Rejected,
{
    OrderStatus::Rejected
}

pub fn order_status_size_reduced() -> (r: OrderStatus)
    ensures
        r == OrderStatus::SizeReduced,
{
    OrderStatus::SizeReduced
}

pub fn order_status_acknowledged() -> (r: OrderStatus)
    ensures
        r == OrderStatus::Acknowledged,
{
    OrderStatus::Acknowledged
}

/// What a clearinghouse callback answers: nothing, or a result together with
/// whether matching goes on.
#[derive(Clone, Debug)]
pub enum CallbackResult<R: Clone> {
    NotAvailable,
    ContinueMatching { result: R },
    StopMatching { result: R },
}

/// The result carried, if any.
pub fn extract_results<R: Clone>(cb: CallbackResult<R>) -> (r: Option<R>)
    ensures
        r == (match cb {
            CallbackResult::NotAvailable => None,
            CallbackResult::ContinueMatching { result } => Some(result),
            CallbackResult::StopMatching { result } => Some(result),
        }),
{
    match cb {
        CallbackResult::NotAvailable => None,
        CallbackResult::ContinueMatching { result } => Some(result),
        CallbackResult::StopMatching { result } => Some(result),
    }
}

/// Whether the callback asks matching to stop.
pub fn should_stop_matching<R: Clone>(cb: &CallbackResult<R>) -> (r: bool)
    ensures
        r == (*cb is StopMatching),
{
    match cb {
        CallbackResult::StopMatching { .. } => true,
        _ => false,
    }
}

pub fn new_callback_result_continue_matching<R: Clone>(result: R) -> (r: CallbackResult<R>)
    ensures
        r == (CallbackResult::ContinueMatching { result }),
{
    CallbackResult::ContinueMatching { result }
}

pub fn new_callback_result_stop_matching<R: Clone>(result: R) -> (r: CallbackResult<R>)
    ensures
        r == (CallbackResult::StopMatching { result }),
{
    CallbackResult::StopMatching { result }
}

pub fn new_callback_result_not_available<R: Clone>() -> (r: CallbackResult<R>)
    ensures
        r == CallbackResult::<R>::NotAvailable,
{
    CallbackResult::NotAvailable
}

/// The bytes of an optional byte string, if any.
pub open spec fn opt_bytes(o: Option<Vec<u8>>) -> Option<Seq<u8>> {
    match o {
        Some(v) => Some(v@),
        None => None,
    }
}

/// A copy of an optional byte string.
pub fn clone_opt_bytes(o: &Option<Vec<u8>>) -> (r: Option<Vec<u8>>)
    ensures
        opt_bytes(r) == opt_bytes(*o),
{
    match o {
        Some(v) => {
            let mut c: Vec<u8> = Vec::new();
            let mut i: usize = 0;
            while i < v.len()
                invariant
                    i <= v@.len(),
                    c@ == v@.subrange(0, i as int),
                decreases v@.len() - i,
            {
                c.push(v[i]);
                i += 1;
                assert(c@ =~= v@.subrange(0, i as int));
            }
            assert(v@.subrange(0, v@.len() as int) =~= v@);
            Some(c)
        },
        None => None,
    }
}

/// What the clearinghouse answers to a trade it settles: the size settled,
/// why the maker or taker order is cancelled (if it is), and the callback's
/// result.
#[derive(Clone, Debug)]
pub enum SettleTradeResult<R: Clone> {
    V1 {
        settled_size: u64,
        maker_cancellation_reason: Option<Vec<u8>>,
        taker_cancellation_reason: Option<Vec<u8>>,
        callback_result: CallbackResult<R>,
    },
}

pub fn new_settle_trade_result<R: Clone>(
    settled_size: u64,
    maker_cancellation_reason: Option<Vec<u8>>,
    taker_cancellation_reason: Option<Vec<u8>>,
    callback_result: CallbackResult<R>,
) -> (r: SettleTradeResult<R>)
    ensures
        r == (SettleTradeResult::V1 {
            settled_size,
            maker_cancellation_reason,
            taker_cancellation_reason,
            callback_result,
        }),
{
    SettleTradeResult::V1 {
        settled_size,
        maker_cancellation_reason,
        taker_cancellation_reason,
        callback_result,
    }
}

pub fn get_settled_size<R: Clone>(result: &SettleTradeResult<R>) -> (r: u64)
    ensures
        r == result->settled_size,
{
    let SettleTradeResult::V1 { settled_size, .. } = result;
    *settled_size
}

pub fn get_maker_cancellation_reason<R: Clone>(result: &SettleTradeResult<R>) -> (r: Option<Vec<u8>>)
    ensures
        opt_bytes(r) == opt_bytes(result->maker_cancellation_reason),
{
    let SettleTradeResult::V1 { maker_cancellation_reason, .. } = result;
    clone_opt_bytes(maker_cancellation_reason)
}

pub fn get_taker_cancellation_reason<R: Clone>(result: &SettleTradeResult<R>) -> (r: Option<Vec<u8>>)
    ensures
        opt_bytes(r) == opt_bytes(result->taker_cancellation_reason),
{
    let SettleTradeResult::V1 { taker_cancellation_reason, .. } = result;
    clone_opt_bytes(taker_cancellation_reason)
}

pub fn get_callback_result<R: Clone>(result: &SettleTradeResult<R>) -> (r: &CallbackResult<R>)
    ensures
        *r == result->callback_result,
{
    let SettleTradeResult::V1 { callback_result, .. } = result;
    callback_result
}

/// What the clearinghouse answers to an order it validates: why it fails,
/// if it does.
#[derive(Clone, Debug)]
pub enum ValidationResult {
    V1 { failure_reason: Option<Vec<u8>> },
}

pub fn new_validation_result(cancellation_reason: Option<Vec<u8>>) -> (r: ValidationResult)
    ensures
        r == (ValidationResult::V1 { failure_reason: cancellation_reason }),
{
    ValidationResult::V1 { failure_reason: cancellation_reason }
}

pub fn is_validation_result_valid(result: &ValidationResult) -> (r: bool)
    ensures
        r == (result->failure_reason is None),
{
    let ValidationResult::V1 { failure_reason } = result;
    failure_reason.is_none()
}

pub fn get_validation_failure_reason(result: &ValidationResult) -> (r: Option<Vec<u8>>)
    ensures
        opt_bytes(r) == opt_bytes(result->failure_reason),
{
    let ValidationResult::V1 { failure_reason } = result;
    clone_opt_bytes(failure_reason)
}

/// What the clearinghouse answers to a maker order it places: why it is
/// cancelled, if it is, and the actions it asks for.
#[derive(Clone, Debug)]
pub enum PlaceMakerOrderResult<R: Clone> {
    V1 { cancellation_reason: Option<Vec<u8>>, action: Option<R> },
}

pub fn new_place_maker_order_result<R: Clone>(
    cancellation_reason: Option<Vec<u8>>,
    actions: Option<R>,
) -> (r: PlaceMakerOrderResult<R>)
    ensures
        r == (PlaceMakerOrderResult::V1 { cancellation_reason, action: actions }),
{
    PlaceMakerOrderResult::V1 { cancellation_reason, action: actions }
}

/// A copy of the actions asked for.
pub fn get_place_maker_order_actions<R: Clone>(result: &PlaceMakerOrderResult<R>) -> (r: Option<R>)
    ensures
        r is Some <==> result->action is Some,
        r is Some ==> cloned::<R>(result->action.unwrap(), r.unwrap()),
{
    let PlaceMakerOrderResult::V1 { action, .. } = result;
    action.clone()
}

pub fn get_place_maker_order_cancellation_reason<R: Clone>(result: &PlaceMakerOrderResult<R>) -> (r:
    Option<Vec<u8>>)
    ensures
        opt_bytes(r) == opt_bytes(result->cancellation_reason),
{
    let PlaceMakerOrderResult::V1 { cancellation_reason, .. } = result;
    clone_opt_bytes(cancellation_reason)
}

/// The settings of a market.
#[derive(Clone, Copy, Debug, PartialEq, Eq, Structural)]
pub enum MarketConfig {
    V1 {
        allow_self_trade: bool,
        allow_events_emission: bool,
        pre_cancellation_window_secs: u64,
        enable_dead_mans_switch: bool,
        min_keep_alive_time_secs: u64,
    },
}

pub fn new_market_config(
    allow_self_matching: bool,
    allow_events_emission: bool,
    pre_cancellation_window_secs: u64,
    enable_dead_mans_switch: bool,
    min_keep_alive_time_secs: u64,
) -> (r: MarketConfig)
    ensures
        r == (MarketConfig::V1 {
            allow_self_trade: allow_self_matching,
            allow_events_emission,
            pre_cancellation_window_secs,
            enable_dead_mans_switch,
            min_keep_alive_time_secs,
        }),
{
    MarketConfig::V1 {
        allow_self_trade: allow_self_matching,
        allow_events_emission,
        pre_cancellation_window_secs,
        enable_dead_mans_switch,
        min_keep_alive_time_secs,
    }
}

} // verus!
