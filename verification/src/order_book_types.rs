//! Basic order-book vocabulary: order ids, priority indices, book types,
//! time-in-force policies and trigger conditions.
use vstd::prelude::*;

verus! {

/// Error code for a time-in-force index other than 0, 1 or 2.
pub const EINVALID_TIME_IN_FORCE: u64 = 5;

pub const SINGLE_ORDER_TYPE: u16 = 0;

pub const BULK_ORDER_TYPE: u16 = 1;

#[derive(Clone, Copy, Debug, PartialEq, Eq, PartialOrd, Ord, Structural)]
pub struct OrderId {
    pub order_id: u128,
}

#[derive(Clone, Debug)]
pub struct AccountClientOrderId {
    pub account: [u8; 32],
    pub client_order_id: Vec<u8>,
}

#[derive(Clone, Copy, Debug, PartialEq, Eq, PartialOrd, Ord, Structural)]
pub struct IncreasingIdx {
    pub idx: u128,
}

#[derive(Clone, Copy, Debug, PartialEq, Eq, PartialOrd, Ord, Structural)]
pub struct DecreasingIdx {
    pub idx: u128,
}

/// The kind of book an order rests in: 0 for single orders, 1 for bulk
/// orders.
#[derive(Clone, Copy, Debug, PartialEq, Eq, Structural)]
pub struct OrderType {
    pub order_type: u16,
}

#[allow(non_camel_case_types)]
#[derive(Clone, Copy, Debug, PartialEq, Eq, Structural)]
pub enum TimeInForce {
    GTC,
    POST_ONLY,
    IOC,
}

#[derive(Clone, Copy, Debug, PartialEq, Eq, Structural)]
pub enum TriggerCondition {
    PriceMoveAbove(u64),
    PriceMoveBelow(u64),
    TimeBased(u64),
}

pub fn single_order_type() -> (r: OrderType)
    ensures
        r.order_type == SINGLE_ORDER_TYPE,
{
    OrderType { order_type: SINGLE_ORDER_TYPE }
}

pub fn bulk_order_type() -> (r: OrderType)
    ensures
        r.order_type == BULK_ORDER_TYPE,
{
    OrderType { order_type: BULK_ORDER_TYPE }
}

impl OrderType {
    /// The kind of single orders.
    pub fn single_order_type() -> (r: Self)
        ensures
            r.order_type == SINGLE_ORDER_TYPE,
    {
        OrderType { order_type: SINGLE_ORDER_TYPE }
    }

    /// The kind of bulk orders.
    pub fn bulk_order_type() -> (r: Self)
        ensures
            r.order_type == BULK_ORDER_TYPE,
    {
        OrderType { order_type: BULK_ORDER_TYPE }
    }

    /// Whether this is the kind of single orders.
    pub fn is_single_order(&self) -> (r: bool)
        ensures
            r == (self.order_type == SINGLE_ORDER_TYPE),
    {
        self.order_type == SINGLE_ORDER_TYPE
    }

    /// Whether this is the kind of bulk orders.
    pub fn is_bulk_order(&self) -> (r: bool)
        ensures
            r == (self.order_type == BULK_ORDER_TYPE),
    {
        self.order_type == BULK_ORDER_TYPE
    }
}

pub fn is_bulk_order_type(order_type: &OrderType) -> (r: bool)
    ensures
        r == (order_type.order_type == BULK_ORDER_TYPE),
{
    order_type.order_type == BULK_ORDER_TYPE
}

pub fn is_single_order_type(order_type: &OrderType) -> (r: bool)
    ensures
        r == (order_type.order_type == SINGLE_ORDER_TYPE),
{
    order_type.order_type == SINGLE_ORDER_TYPE
}

pub fn new_order_id_type(order_id: u128) -> (r: OrderId)
    ensures
        r.order_id == order_id,
{
    OrderId { order_id }
}

pub fn new_account_client_order_id(account: [u8; 32], client_order_id: Vec<u8>) -> (r:
    AccountClientOrderId)
    ensures
        r.account == account,
        r.client_order_id@ == client_order_id@,
{
    AccountClientOrderId { account, client_order_id }
}

/// The index that orders the other way: `u128::MAX - idx`.
pub fn into_decreasing_idx_type(increasing: &IncreasingIdx) -> (r: DecreasingIdx)
    ensures
        r.idx == u128::MAX - increasing.idx,
{
    DecreasingIdx { idx: u128::MAX - increasing.idx }
}

pub fn get_order_id_value(order_id: &OrderId) -> (r: u128)
    ensures
        r == order_id.order_id,
{
    order_id.order_id
}

/// The time-in-force numbered `index`: 0 good-till-cancelled, 1 post-only,
/// 2 immediate-or-cancel.
pub open spec fn time_in_force_spec(index: u8) -> Option<TimeInForce> {
    if index == 0 {
        Some(TimeInForce::GTC)
    } else if index == 1 {
        Some(TimeInForce::POST_ONLY)
    } else if index == 2 {
        Some(TimeInForce::IOC)
    } else {
        None
    }
}

pub fn time_in_force_from_index(index: u8) -> (r: Result<TimeInForce, u64>)
    ensures
        index <= 2 ==> r == Ok::<TimeInForce, u64>(time_in_force_spec(index).unwrap()),
        index > 2 ==> r == Err::<TimeInForce, u64>(EINVALID_TIME_IN_FORCE),
{
    if index == 0 {
        Ok(TimeInForce::GTC)
    } else if index == 1 {
        Ok(TimeInForce::POST_ONLY)
    } else if index == 2 {
        Ok(TimeInForce::IOC)
    } else {
        Err(EINVALID_TIME_IN_FORCE)
    }
}

pub fn good_till_cancelled() -> (r: TimeInForce)
    ensures
        r == TimeInForce::GTC,
{
    TimeInForce::GTC
}

pub fn post_only() -> (r: TimeInForce)
    ensures
        r == TimeInForce::POST_ONLY,
{
    TimeInForce::POST_ONLY
}

pub fn immediate_or_cancel() -> (r: TimeInForce)
    ensures
        r == TimeInForce::IOC,
{
    TimeInForce::IOC
}

pub fn new_time_based_trigger_condition(time_secs: u64) -> (r: TriggerCondition)
    ensures
        r == TriggerCondition::TimeBased(time_secs),
{
    TriggerCondition::TimeBased(time_secs)
}

pub fn price_move_up_condition(price: u64) -> (r: TriggerCondition)
    ensures
        r == TriggerCondition::PriceMoveAbove(price),
{
    TriggerCondition::PriceMoveAbove(price)
}

pub fn price_move_down_condition(price: u64) -> (r: TriggerCondition)
    ensures
        r == TriggerCondition::PriceMoveBelow(price),
{
    TriggerCondition::PriceMoveBelow(price)
}

/// The trigger's index entries: (price to fall to, price to rise to, time).
pub fn get_trigger_condition_indices(trigger: &TriggerCondition) -> (r: (
    Option<u64>,
    Option<u64>,
    Option<u64>,
))
    ensures
        r == match *trigger {
            TriggerCondition::PriceMoveAbove(price) => (None, Some(price), None),
            TriggerCondition::PriceMoveBelow(price) => (Some(price), None, None),
            TriggerCondition::TimeBased(time) => (None, None, Some(time)),
        },
{
    match trigger {
        TriggerCondition::PriceMoveAbove(price) => (None, Some(*price), None),
        TriggerCondition::PriceMoveBelow(price) => (Some(*price), None, None),
        TriggerCondition::TimeBased(time) => (None, None, Some(*time)),
    }
}

} // verus!
