//! The metadata that the perpetuals engine attaches to an order, and the
//! actions it asks of the order book after a match.
use vstd::prelude::*;
use crate::builder_code_registry::BuilderCode;
use crate::order_book_types::OrderId;

verus! {

/// A take-profit or stop-loss order attached to a parent order.
#[derive(Clone, Copy, Debug)]
pub enum ChildTpSlOrder {
    V1 { trigger_price: u64, parent_order_id: OrderId, limit_price: Option<u64> },
}

#[allow(non_camel_case_types)]
#[derive(Clone, Copy, Debug)]
pub enum OrderMetadata {
    V1_RETAIL {
        is_reduce_only: bool,
        use_backstop_liquidation_margin: bool,
        is_margin_call: bool,
        twap: Option<TwapMetadata>,
        tp_sl: TpSlMetadata,
        builder_code: Option<BuilderCode>,
    },
    V1_BULK { builder_code: Option<BuilderCode> },
}

#[derive(Clone, Copy, Debug)]
pub enum TpSlMetadata {
    V1 { tp: Option<ChildTpSlOrder>, sl: Option<ChildTpSlOrder> },
}

#[derive(Clone, Copy, Debug, PartialEq, Eq, Structural)]
pub enum TwapMetadata {
    V1 { start_time_seconds: u64, frequency_seconds: u64, end_time_seconds: u64 },
}

#[derive(Clone, Debug)]
pub enum OrderActions {
    V1 { actions: Vec<SingleOrderAction> },
}

#[derive(Clone, Copy, Debug)]
pub enum SingleOrderAction {
    CancelOrder { account: [u8; 32], order_id: OrderId },
    ReduceOrderSize { account: [u8; 32], order_id: OrderId, size_delta: u64 },
}

#[derive(Clone, Debug)]
pub enum OrderMatchingActions {
    SettleTradeMatchingActions(OrderActions),
    PlaceMakerOrderActions(OrderActions),
}

/// The metadata of a plain retail order: no flags, no TWAP, no TP/SL, no
/// builder.
pub fn new_default_order_metadata() -> (r: OrderMetadata)
    ensures
        r matches OrderMetadata::V1_RETAIL {
            is_reduce_only,
            use_backstop_liquidation_margin,
            is_margin_call,
            twap,
            tp_sl,
            builder_code,
        } && !is_reduce_only && !use_backstop_liquidation_margin && !is_margin_call && twap is None
            && tp_sl->tp is None && tp_sl->sl is None && builder_code is None,
{
    OrderMetadata::V1_RETAIL {
        is_reduce_only: false,
        use_backstop_liquidation_margin: false,
        is_margin_call: false,
        twap: None,
        tp_sl: TpSlMetadata::V1 { tp: None, sl: None },
        builder_code: None,
    }
}

/// The metadata of a liquidation order: a margin call that uses the
/// backstop liquidation margin.
pub fn new_liquidation_metadata() -> (r: OrderMetadata)
    ensures
        r matches OrderMetadata::V1_RETAIL {
            is_reduce_only,
            use_backstop_liquidation_margin,
            is_margin_call,
            twap,
            tp_sl,
            builder_code,
        } && !is_reduce_only && use_backstop_liquidation_margin && is_margin_call && twap is None
            && tp_sl->tp is None && tp_sl->sl is None && builder_code is None,
{
    OrderMetadata::V1_RETAIL {
        is_reduce_only: false,
        use_backstop_liquidation_margin: true,
        is_margin_call: true,
        twap: None,
        tp_sl: TpSlMetadata::V1 { tp: None, sl: None },
        builder_code: None,
    }
}

pub fn is_reduce_only(order_metadata: &OrderMetadata) -> (r: bool)
    ensures
        r == (match *order_metadata {
            OrderMetadata::V1_RETAIL { is_reduce_only, .. } => is_reduce_only,
            OrderMetadata::V1_BULK { .. } => false,
        }),
{
    match order_metadata {
        OrderMetadata::V1_RETAIL { is_reduce_only, .. } => *is_reduce_only,
        OrderMetadata::V1_BULK { .. } => false,
    }
}

pub fn use_backstop_liquidation_margin(order_metadata: &OrderMetadata) -> (r: bool)
    ensures
        r == (match *order_metadata {
            OrderMetadata::V1_RETAIL { use_backstop_liquidation_margin, .. } =>
                use_backstop_liquidation_margin,
            OrderMetadata::V1_BULK { .. } => false,
        }),
{
    match order_metadata {
        OrderMetadata::V1_RETAIL { use_backstop_liquidation_margin, .. } =>
            *use_backstop_liquidation_margin,
        OrderMetadata::V1_BULK { .. } => false,
    }
}

pub fn is_margin_call(order_metadata: &OrderMetadata) -> (r: bool)
    ensures
        r == (match *order_metadata {
            OrderMetadata::V1_RETAIL { is_margin_call, .. } => is_margin_call,
            OrderMetadata::V1_BULK { .. } => false,
        }),
{
    match order_metadata {
        OrderMetadata::V1_RETAIL { is_margin_call, .. } => *is_margin_call,
        OrderMetadata::V1_BULK { .. } => false,
    }
}

pub fn get_builder_code_from_metadata(order_metadata: &OrderMetadata) -> (r: Option<BuilderCode>)
    ensures
        r == (match *order_metadata {
            OrderMetadata::V1_RETAIL { builder_code, .. } => builder_code,
            OrderMetadata::V1_BULK { builder_code } => builder_code,
        }),
{
    match order_metadata {
        OrderMetadata::V1_RETAIL { builder_code, .. } => *builder_code,
        OrderMetadata::V1_BULK { builder_code } => *builder_code,
    }
}

/// The metadata of a retail order with the given flags and attachments.
pub fn new_order_metadata(
    is_reduce_only: bool,
    twap: Option<TwapMetadata>,
    tp: Option<ChildTpSlOrder>,
    sl: Option<ChildTpSlOrder>,
    builder_code: Option<BuilderCode>,
) -> (r: OrderMetadata)
    ensures
        r == (OrderMetadata::V1_RETAIL {
            is_reduce_only,
            use_backstop_liquidation_margin: false,
            is_margin_call: false,
            twap,
            tp_sl: TpSlMetadata::V1 { tp, sl },
            builder_code,
        }),
{
    OrderMetadata::V1_RETAIL {
        is_reduce_only,
        use_backstop_liquidation_margin: false,
        is_margin_call: false,
        twap,
        tp_sl: TpSlMetadata::V1 { tp, sl },
        builder_code,
    }
}

pub fn new_twap_metadata(start_time_seconds: u64, frequency_seconds: u64, end_time_seconds: u64) -> (r:
    TwapMetadata)
    ensures
        r == (TwapMetadata::V1 { start_time_seconds, frequency_seconds, end_time_seconds }),
{
    TwapMetadata::V1 { start_time_seconds, frequency_seconds, end_time_seconds }
}

/// The TWAP start, frequency and end of an order, or zeros where it has
/// none.
pub fn get_twap_from_metadata(order_metadata: &OrderMetadata) -> (r: (u64, u64, u64))
    ensures
        r == (match *order_metadata {
            OrderMetadata::V1_RETAIL { twap: Some(t), .. } => (
                t->start_time_seconds,
                t->frequency_seconds,
                t->end_time_seconds,
            ),
            _ => (0u64, 0u64, 0u64),
        }),
{
    match order_metadata {
        OrderMetadata::V1_RETAIL { twap, .. } => match twap {
            Some(TwapMetadata::V1 { start_time_seconds, frequency_seconds, end_time_seconds }) => (
                *start_time_seconds,
                *frequency_seconds,
                *end_time_seconds,
            ),
            None => (0, 0, 0),
        },
        OrderMetadata::V1_BULK { .. } => (0, 0, 0),
    }
}

} // verus!
