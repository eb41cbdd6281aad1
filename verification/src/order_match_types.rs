//! What the order book reports of a match: the resting order matched
//! (single or bulk) and the size matched, and the orders still active after
//! a match.
use vstd::prelude::*;
use crate::addr_map::addr_eq;
use crate::market_types::{clone_opt_bytes, opt_bytes};
use crate::order_book_types::{
    bulk_order_type, good_till_cancelled, is_single_order_type, single_order_type, IncreasingIdx,
    OrderId, OrderType, TimeInForce, BULK_ORDER_TYPE, SINGLE_ORDER_TYPE,
};

verus! {

pub const E_REINSERT_ORDER_MISMATCH: u64 = 8;

/// The resting order of a match.
#[derive(Clone, Debug)]
pub enum OrderMatchDetails<M: Clone> {
    SingleOrder {
        order_id: OrderId,
        account: [u8; 32],
        client_order_id: Option<Vec<u8>>,
        unique_priority_idx: IncreasingIdx,
        price: u64,
        orig_size: u64,
        remaining_size: u64,
        is_bid: bool,
        time_in_force: TimeInForce,
        creation_time_micros: u64,
        metadata: M,
    },
    BulkOrder {
        order_id: OrderId,
        account: [u8; 32],
        unique_priority_idx: IncreasingIdx,
        price: u64,
        remaining_size: u64,
        is_bid: bool,
        sequence_number: u64,
        creation_time_micros: u64,
        metadata: M,
    },
}

/// A match: the resting order and the size matched.
#[derive(Clone, Debug)]
pub enum OrderMatch<M: Clone> {
    V1 { order: OrderMatchDetails<M>, matched_size: u64 },
}

#[derive(Clone, Copy, Debug, PartialEq, Eq, Structural)]
pub enum ActiveMatchedOrder {
    V1 { order_id: OrderId, matched_size: u64, remaining_size: u64, order_book_type: OrderType },
}

pub open spec fn details_order_id<M: Clone>(d: OrderMatchDetails<M>) -> OrderId {
    match d {
        OrderMatchDetails::SingleOrder { order_id, .. } => order_id,
        OrderMatchDetails::BulkOrder { order_id, .. } => order_id,
    }
}

pub open spec fn details_account<M: Clone>(d: OrderMatchDetails<M>) -> [u8; 32] {
    match d {
        OrderMatchDetails::SingleOrder { account, .. } => account,
        OrderMatchDetails::BulkOrder { account, .. } => account,
    }
}

pub open spec fn details_priority<M: Clone>(d: OrderMatchDetails<M>) -> IncreasingIdx {
    match d {
        OrderMatchDetails::SingleOrder { unique_priority_idx, .. } => unique_priority_idx,
        OrderMatchDetails::BulkOrder { unique_priority_idx, .. } => unique_priority_idx,
    }
}

pub open spec fn details_price<M: Clone>(d: OrderMatchDetails<M>) -> u64 {
    match d {
        OrderMatchDetails::SingleOrder { price, .. } => price,
        OrderMatchDetails::BulkOrder { price, .. } => price,
    }
}

pub open spec fn details_remaining_size<M: Clone>(d: OrderMatchDetails<M>) -> u64 {
    match d {
        OrderMatchDetails::SingleOrder { remaining_size, .. } => remaining_size,
        OrderMatchDetails::BulkOrder { remaining_size, .. } => remaining_size,
    }
}

pub open spec fn details_is_bid<M: Clone>(d: OrderMatchDetails<M>) -> bool {
    match d {
        OrderMatchDetails::SingleOrder { is_bid, .. } => is_bid,
        OrderMatchDetails::BulkOrder { is_bid, .. } => is_bid,
    }
}

pub open spec fn details_creation_time<M: Clone>(d: OrderMatchDetails<M>) -> u64 {
    match d {
        OrderMatchDetails::SingleOrder { creation_time_micros, .. } => creation_time_micros,
        OrderMatchDetails::BulkOrder { creation_time_micros, .. } => creation_time_micros,
    }
}

pub open spec fn details_metadata<M: Clone>(d: OrderMatchDetails<M>) -> M {
    match d {
        OrderMatchDetails::SingleOrder { metadata, .. } => metadata,
        OrderMatchDetails::BulkOrder { metadata, .. } => metadata,
    }
}

/// The client order id of a single order (a bulk order has none).
pub open spec fn details_client_order_id<M: Clone>(d: OrderMatchDetails<M>) -> Option<Seq<u8>> {
    match d {
        OrderMatchDetails::SingleOrder { client_order_id, .. } => opt_bytes(client_order_id),
        OrderMatchDetails::BulkOrder { .. } => None,
    }
}

pub fn new_single_order_match_details<M: Clone + Copy>(
    order_id: OrderId,
    account: [u8; 32],
    client_order_id: Option<Vec<u8>>,
    unique_priority_idx: IncreasingIdx,
    price: u64,
    orig_size: u64,
    remaining_size: u64,
    is_bid: bool,
    time_in_force: TimeInForce,
    creation_time_micros: u64,
    metadata: M,
) -> (r: OrderMatchDetails<M>)
    ensures
        r == (OrderMatchDetails::SingleOrder {
            order_id,
            account,
            client_order_id,
            unique_priority_idx,
            price,
            orig_size,
            remaining_size,
            is_bid,
            time_in_force,
            creation_time_micros,
            metadata,
        }),
{
    OrderMatchDetails::SingleOrder {
        order_id,
        account,
        client_order_id,
        unique_priority_idx,
        price,
        orig_size,
        remaining_size,
        is_bid,
        time_in_force,
        creation_time_micros,
        metadata,
    }
}

pub fn new_bulk_order_match_details<M: Clone + Copy>(
    order_id: OrderId,
    account: [u8; 32],
    unique_priority_idx: IncreasingIdx,
    price: u64,
    remaining_size: u64,
    is_bid: bool,
    sequence_number: u64,
    creation_time_micros: u64,
    metadata: M,
) -> (r: OrderMatchDetails<M>)
    ensures
        r == (OrderMatchDetails::BulkOrder {
            order_id,
            account,
            unique_priority_idx,
            price,
            remaining_size,
            is_bid,
            sequence_number,
            creation_time_micros,
            metadata,
        }),
{
    OrderMatchDetails::BulkOrder {
        order_id,
        account,
        unique_priority_idx,
        price,
        remaining_size,
        is_bid,
        sequence_number,
        creation_time_micros,
        metadata,
    }
}

pub fn new_order_match<M: Clone + Copy>(order: OrderMatchDetails<M>, matched_size: u64) -> (r:
    OrderMatch<M>)
    ensures
        r == (OrderMatch::V1 { order, matched_size }),
{
    OrderMatch::V1 { order, matched_size }
}

/// A copy of the order with another remaining size.
pub fn new_order_match_details_with_modified_size<M: Clone + Copy>(
    original: &OrderMatchDetails<M>,
    new_remaining_size: u64,
) -> (r: OrderMatchDetails<M>)
    ensures
        details_remaining_size(r) == new_remaining_size,
        match (*original, r) {
            (
                OrderMatchDetails::SingleOrder {
                    order_id: a0,
                    account: a1,
                    client_order_id: a2,
                    unique_priority_idx: a3,
                    price: a4,
                    orig_size: a5,
                    is_bid: a7,
                    time_in_force: a8,
                    creation_time_micros: a9,
                    metadata: a10,
                    ..
                },
                OrderMatchDetails::SingleOrder {
                    order_id: b0,
                    account: b1,
                    client_order_id: b2,
                    unique_priority_idx: b3,
                    price: b4,
                    orig_size: b5,
                    is_bid: b7,
                    time_in_force: b8,
                    creation_time_micros: b9,
                    metadata: b10,
                    ..
                },
            ) => a0 == b0 && a1 == b1 && opt_bytes(a2) == opt_bytes(b2) && a3 == b3 && a4 == b4
                && a5 == b5 && a7 == b7 && a8 == b8 && a9 == b9 && a10 == b10,
            (
                OrderMatchDetails::BulkOrder {
                    order_id: a0,
                    account: a1,
                    unique_priority_idx: a3,
                    price: a4,
                    is_bid: a7,
                    sequence_number: a8,
                    creation_time_micros: a9,
                    metadata: a10,
                    ..
                },
                OrderMatchDetails::BulkOrder {
                    order_id: b0,
                    account: b1,
                    unique_priority_idx: b3,
                    price: b4,
                    is_bid: b7,
                    sequence_number: b8,
                    creation_time_micros: b9,
                    metadata: b10,
                    ..
                },
            ) => a0 == b0 && a1 == b1 && a3 == b3 && a4 == b4 && a7 == b7 && a8 == b8 && a9 == b9
                && a10 == b10,
            _ => false,
        },
{
    match original {
        OrderMatchDetails::SingleOrder {
            order_id,
            account,
            client_order_id,
            unique_priority_idx,
            price,
            orig_size,
            is_bid,
            time_in_force,
            creation_time_micros,
            metadata,
            ..
        } => OrderMatchDetails::SingleOrder {
            order_id: *order_id,
            account: *account,
            client_order_id: clone_opt_bytes(client_order_id),
            unique_priority_idx: *unique_priority_idx,
            price: *price,
            orig_size: *orig_size,
            remaining_size: new_remaining_size,
            is_bid: *is_bid,
            time_in_force: *time_in_force,
            creation_time_micros: *creation_time_micros,
            metadata: *metadata,
        },
        OrderMatchDetails::BulkOrder {
            order_id,
            account,
            unique_priority_idx,
            price,
            is_bid,
            sequence_number,
            creation_time_micros,
            metadata,
            ..
        } => OrderMatchDetails::BulkOrder {
            order_id: *order_id,
            account: *account,
            unique_priority_idx: *unique_priority_idx,
            price: *price,
            remaining_size: new_remaining_size,
            is_bid: *is_bid,
            sequence_number: *sequence_number,
            creation_time_micros: *creation_time_micros,
            metadata: *metadata,
        },
    }
}

pub fn new_active_matched_order(
    order_id: OrderId,
    matched_size: u64,
    remaining_size: u64,
    order_book_type: OrderType,
) -> (r: ActiveMatchedOrder)
    ensures
        r == (ActiveMatchedOrder::V1 { order_id, matched_size, remaining_size, order_book_type }),
{
    ActiveMatchedOrder::V1 { order_id, matched_size, remaining_size, order_book_type }
}

pub fn get_matched_size<M: Clone>(order_match: &OrderMatch<M>) -> (r: u64)
    ensures
        r == order_match->matched_size,
{
    let OrderMatch::V1 { matched_size, .. } = order_match;
    *matched_size
}

pub fn get_account_from_match_details<M: Clone + Copy>(details: &OrderMatchDetails<M>) -> (r: [u8;
    32])
    ensures
        r == details_account(*details),
{
    match details {
        OrderMatchDetails::SingleOrder { account, .. } => *account,
        OrderMatchDetails::BulkOrder { account, .. } => *account,
    }
}

pub fn get_order_id_from_match_details<M: Clone + Copy>(details: &OrderMatchDetails<M>) -> (r:
    OrderId)
    ensures
        r == details_order_id(*details),
{
    match details {
        OrderMatchDetails::SingleOrder { order_id, .. } => *order_id,
        OrderMatchDetails::BulkOrder { order_id, .. } => *order_id,
    }
}

pub fn get_unique_priority_idx_from_match_details<M: Clone + Copy>(
    details: &OrderMatchDetails<M>,
) -> (r: IncreasingIdx)
    ensures
        r == details_priority(*details),
{
    match details {
        OrderMatchDetails::SingleOrder { unique_priority_idx, .. } => *unique_priority_idx,
        OrderMatchDetails::BulkOrder { unique_priority_idx, .. } => *unique_priority_idx,
    }
}

pub fn get_price_from_match_details<M: Clone + Copy>(details: &OrderMatchDetails<M>) -> (r: u64)
    ensures
        r == details_price(*details),
{
    match details {
        OrderMatchDetails::SingleOrder { price, .. } => *price,
        OrderMatchDetails::BulkOrder { price, .. } => *price,
    }
}

/// The original size of a single order (a bulk order has none).
pub fn get_orig_size_from_match_details<M: Clone + Copy>(details: &OrderMatchDetails<M>) -> (r:
    u64)
    requires
        *details is SingleOrder,
    ensures
        r == details->SingleOrder_orig_size,
{
    match details {
        OrderMatchDetails::SingleOrder { orig_size, .. } => *orig_size,
        OrderMatchDetails::BulkOrder { .. } => 0,
    }
}

pub fn get_remaining_size_from_match_details<M: Clone + Copy>(details: &OrderMatchDetails<M>) -> (r:
    u64)
    ensures
        r == details_remaining_size(*details),
{
    match details {
        OrderMatchDetails::SingleOrder { remaining_size, .. } => *remaining_size,
        OrderMatchDetails::BulkOrder { remaining_size, .. } => *remaining_size,
    }
}

/// The time in force of the order; bulk orders rest until cancelled.
pub fn get_time_in_force_from_match_details<M: Clone + Copy>(details: &OrderMatchDetails<M>) -> (r:
    TimeInForce)
    ensures
        r == (match *details {
            OrderMatchDetails::SingleOrder { time_in_force, .. } => time_in_force,
            OrderMatchDetails::BulkOrder { .. } => TimeInForce::GTC,
        }),
{
    match details {
        OrderMatchDetails::SingleOrder { time_in_force, .. } => *time_in_force,
        OrderMatchDetails::BulkOrder { .. } => good_till_cancelled(),
    }
}

pub fn get_metadata_from_match_details<M: Clone + Copy>(details: &OrderMatchDetails<M>) -> (r: M)
    ensures
        r == details_metadata(*details),
{
    match details {
        OrderMatchDetails::SingleOrder { metadata, .. } => *metadata,
        OrderMatchDetails::BulkOrder { metadata, .. } => *metadata,
    }
}

pub fn get_client_order_id_from_match_details<M: Clone + Copy>(details: &OrderMatchDetails<M>) -> (r:
    Option<Vec<u8>>)
    ensures
        opt_bytes(r) == details_client_order_id(*details),
{
    match details {
        OrderMatchDetails::SingleOrder { client_order_id, .. } => clone_opt_bytes(client_order_id),
        OrderMatchDetails::BulkOrder { .. } => None,
    }
}

pub fn is_bid_from_match_details<M: Clone + Copy>(details: &OrderMatchDetails<M>) -> (r: bool)
    ensures
        r == details_is_bid(*details),
{
    match details {
        OrderMatchDetails::SingleOrder { is_bid, .. } => *is_bid,
        OrderMatchDetails::BulkOrder { is_bid, .. } => *is_bid,
    }
}

pub fn get_book_type_from_match_details<M: Clone + Copy>(details: &OrderMatchDetails<M>) -> (r:
    OrderType)
    ensures
        r.order_type == (if *details is SingleOrder {
            SINGLE_ORDER_TYPE
        } else {
            BULK_ORDER_TYPE
        }),
{
    match details {
        OrderMatchDetails::SingleOrder { .. } => single_order_type(),
        OrderMatchDetails::BulkOrder { .. } => bulk_order_type(),
    }
}

pub fn is_bulk_order_from_match_details<M: Clone + Copy>(details: &OrderMatchDetails<M>) -> (r:
    bool)
    ensures
        r == (*details is BulkOrder),
{
    match details {
        OrderMatchDetails::BulkOrder { .. } => true,
        _ => false,
    }
}

pub fn is_single_order_from_match_details<M: Clone + Copy>(details: &OrderMatchDetails<M>) -> (r:
    bool)
    ensures
        r == (*details is SingleOrder),
{
    match details {
        OrderMatchDetails::SingleOrder { .. } => true,
        _ => false,
    }
}

/// The sequence number of a bulk order (a single order has none).
pub fn get_sequence_number_from_match_details<M: Clone + Copy>(details: &OrderMatchDetails<M>) -> (r:
    u64)
    requires
        *details is BulkOrder,
    ensures
        r == details->BulkOrder_sequence_number,
{
    match details {
        OrderMatchDetails::BulkOrder { sequence_number, .. } => *sequence_number,
        _ => 0,
    }
}

pub fn get_creation_time_micros_from_match_details<M: Clone + Copy>(
    details: &OrderMatchDetails<M>,
) -> (r: u64)
    ensures
        r == details_creation_time(*details),
{
    match details {
        OrderMatchDetails::SingleOrder { creation_time_micros, .. } => *creation_time_micros,
        OrderMatchDetails::BulkOrder { creation_time_micros, .. } => *creation_time_micros,
    }
}

pub fn destroy_order_match<M: Clone + Copy>(order_match: OrderMatch<M>) -> (r: (
    OrderMatchDetails<M>,
    u64,
))
    ensures
        r == (order_match->order, order_match->matched_size),
{
    let OrderMatch::V1 { order, matched_size } = order_match;
    (order, matched_size)
}

/// The fields of a single order (a bulk order cannot be taken apart so).
pub fn destroy_single_order_match_details<M: Clone + Copy>(details: OrderMatchDetails<M>) -> (r: (
    OrderId,
    [u8; 32],
    Option<Vec<u8>>,
    IncreasingIdx,
    u64,
    u64,
    u64,
    bool,
    TimeInForce,
    u64,
    M,
))
    requires
        details is SingleOrder,
    ensures
        r == (
            details->SingleOrder_order_id,
            details->SingleOrder_account,
            details->SingleOrder_client_order_id,
            details->SingleOrder_unique_priority_idx,
            details->SingleOrder_price,
            details->SingleOrder_orig_size,
            details->SingleOrder_remaining_size,
            details->SingleOrder_is_bid,
            details->SingleOrder_time_in_force,
            details->SingleOrder_creation_time_micros,
            details->SingleOrder_metadata,
        ),
{
    match details {
        OrderMatchDetails::SingleOrder {
            order_id,
            account,
            client_order_id,
            unique_priority_idx,
            price,
            orig_size,
            remaining_size,
            is_bid,
            time_in_force,
            creation_time_micros,
            metadata,
        } => (
            order_id,
            account,
            client_order_id,
            unique_priority_idx,
            price,
            orig_size,
            remaining_size,
            is_bid,
            time_in_force,
            creation_time_micros,
            metadata,
        ),
        OrderMatchDetails::BulkOrder { .. } => vstd::pervasive::unreached(),
    }
}

pub fn destroy_active_matched_order(order: ActiveMatchedOrder) -> (r: (OrderId, u64, u64, OrderType))
    ensures
        r == (order->order_id, order->matched_size, order->remaining_size, order->order_book_type),
{
    let ActiveMatchedOrder::V1 { order_id, matched_size, remaining_size, order_book_type } = order;
    (order_id, matched_size, remaining_size, order_book_type)
}

pub fn get_active_matched_size(order: &ActiveMatchedOrder) -> (r: u64)
    ensures
        r == order->matched_size,
{
    let ActiveMatchedOrder::V1 { matched_size, .. } = order;
    *matched_size
}

pub fn is_active_matched_book_type_single_order(order: &ActiveMatchedOrder) -> (r: bool)
    ensures
        r == (order->order_book_type.order_type == SINGLE_ORDER_TYPE),
{
    let ActiveMatchedOrder::V1 { order_book_type, .. } = order;
    is_single_order_type(order_book_type)
}

/// Whether `other` is the same single order as `self_details` (same id,
/// account, priority, price, original size and side), so that it may be put
/// back in the book.
pub fn validate_single_order_reinsertion_request<M: Clone + Copy>(
    self_details: &OrderMatchDetails<M>,
    other: &OrderMatchDetails<M>,
) -> (r: bool)
    ensures
        r == (match (*self_details, *other) {
            (
                OrderMatchDetails::SingleOrder {
                    order_id: a0,
                    account: a1,
                    unique_priority_idx: a2,
                    price: a3,
                    orig_size: a4,
                    is_bid: a5,
                    ..
                },
                OrderMatchDetails::SingleOrder {
                    order_id: b0,
                    account: b1,
                    unique_priority_idx: b2,
                    price: b3,
                    orig_size: b4,
                    is_bid: b5,
                    ..
                },
            ) => a0 == b0 && a1 == b1 && a2 == b2 && a3 == b3 && a4 == b4 && a5 == b5,
            _ => false,
        }),
{
    match (self_details, other) {
        (
            OrderMatchDetails::SingleOrder {
                order_id: s_oid,
                account: s_acc,
                unique_priority_idx: s_upi,
                price: s_price,
                orig_size: s_orig,
                is_bid: s_bid,
                ..
            },
            OrderMatchDetails::SingleOrder {
                order_id: o_oid,
                account: o_acc,
                unique_priority_idx: o_upi,
                price: o_price,
                orig_size: o_orig,
                is_bid: o_bid,
                ..
            },
        ) => *s_oid == *o_oid && addr_eq(s_acc, o_acc) && *s_upi == *o_upi && *s_price == *o_price
            && *s_orig == *o_orig && *s_bid == *o_bid,
        _ => false,
    }
}

/// Whether `other` is the same bulk order as `self_details` (same id,
/// account, priority, price, side and sequence number), so that it may be
/// put back in the book.
pub fn validate_bulk_order_reinsertion_request<M: Clone + Copy>(
    self_details: &OrderMatchDetails<M>,
    other: &OrderMatchDetails<M>,
) -> (r: bool)
    ensures
        r == (match (*self_details, *other) {
            (
                OrderMatchDetails::BulkOrder {
                    order_id: a0,
                    account: a1,
                    unique_priority_idx: a2,
                    price: a3,
                    is_bid: a4,
                    sequence_number: a5,
                    ..
                },
                OrderMatchDetails::BulkOrder {
                    order_id: b0,
                    account: b1,
                    unique_priority_idx: b2,
                    price: b3,
                    is_bid: b4,
                    sequence_number: b5,
                    ..
                },
            ) => a0 == b0 && a1 == b1 && a2 == b2 && a3 == b3 && a4 == b4 && a5 == b5,
            _ => false,
        }),
{
    match (self_details, other) {
        (
            OrderMatchDetails::BulkOrder {
                order_id: s_oid,
                account: s_acc,
                unique_priority_idx: s_upi,
                price: s_price,
                is_bid: s_bid,
                sequence_number: s_seq,
                ..
            },
            OrderMatchDetails::BulkOrder {
                order_id: o_oid,
                account: o_acc,
                unique_priority_idx: o_upi,
                price: o_price,
                is_bid: o_bid,
                sequence_number: o_seq,
                ..
            },
        ) => *s_oid == *o_oid && addr_eq(s_acc, o_acc) && *s_upi == *o_upi && *s_price == *o_price
            && *s_bid == *o_bid && *s_seq == *o_seq,
        _ => false,
    }
}

} // verus!
