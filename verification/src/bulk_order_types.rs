//! Bulk orders: a set of price levels with sizes on each side, placed and
//! replaced as one order, and the answers to a bulk placement.
use vstd::prelude::*;
use crate::order_book_types::{IncreasingIdx, OrderId};
use crate::order_match_types::{new_bulk_order_match_details, new_order_match, OrderMatch, OrderMatchDetails};

verus! {

/// What a bulk order asks for: bid levels (highest first) and ask levels
/// (lowest first), each with a size.
#[derive(Clone, Debug)]
pub enum BulkOrderRequest<M: Clone> {
    V1 {
        account: [u8; 32],
        order_sequence_number: u64,
        bid_prices: Vec<u64>,
        bid_sizes: Vec<u64>,
        ask_prices: Vec<u64>,
        ask_sizes: Vec<u64>,
        metadata: M,
    },
}

/// A bulk order with its id, time priority and creation time.
#[derive(Clone, Debug)]
pub enum BulkOrder<M: Clone> {
    V1 {
        order_request: BulkOrderRequest<M>,
        order_id: OrderId,
        unique_priority_idx: IncreasingIdx,
        creation_time_micros: u64,
    },
}

/// The answer to a bulk placement: the order placed with the levels it
/// dropped, or a rejection for a stale sequence number.
#[derive(Clone, Debug)]
pub enum BulkOrderPlaceResponse<M: Clone> {
    SuccessV1 {
        order: BulkOrder<M>,
        cancelled_bid_prices: Vec<u64>,
        cancelled_bid_sizes: Vec<u64>,
        cancelled_ask_prices: Vec<u64>,
        cancelled_ask_sizes: Vec<u64>,
        previous_seq_num: Option<u64>,
    },
    RejectionV1 { account: [u8; 32], sequence_number: u64, existing_sequence_number: u64 },
}

impl<M: Clone> BulkOrderRequest<M> {
    /// The prices of a side.
    pub open spec fn prices(self, is_bid: bool) -> Seq<u64> {
        if is_bid {
            self->bid_prices@
        } else {
            self->ask_prices@
        }
    }

    /// The sizes of a side.
    pub open spec fn sizes(self, is_bid: bool) -> Seq<u64> {
        if is_bid {
            self->bid_sizes@
        } else {
            self->ask_sizes@
        }
    }

    /// Whether `other` differs from `self` at most in the prices and sizes
    /// of the `is_bid` side.
    pub open spec fn same_but_side(self, other: Self, is_bid: bool) -> bool {
        &&& self->account == other->account
        &&& self->order_sequence_number == other->order_sequence_number
        &&& self->metadata == other->metadata
        &&& self.prices(!is_bid) == other.prices(!is_bid)
        &&& self.sizes(!is_bid) == other.sizes(!is_bid)
    }
}

/// A bulk order.
pub fn new_bulk_order<M: Clone>(
    order_request: BulkOrderRequest<M>,
    order_id: OrderId,
    unique_priority_idx: IncreasingIdx,
    creation_time_micros: u64,
) -> (r: BulkOrder<M>)
    ensures
        r == (BulkOrder::V1 { order_request, order_id, unique_priority_idx, creation_time_micros }),
{
    BulkOrder::V1 { order_request, order_id, unique_priority_idx, creation_time_micros }
}

/// A bulk order request.
pub fn new_bulk_order_request<M: Clone>(
    account: [u8; 32],
    sequence_number: u64,
    bid_prices: Vec<u64>,
    bid_sizes: Vec<u64>,
    ask_prices: Vec<u64>,
    ask_sizes: Vec<u64>,
    metadata: M,
) -> (r: BulkOrderRequest<M>)
    ensures
        r == (BulkOrderRequest::V1 {
            account,
            order_sequence_number: sequence_number,
            bid_prices,
            bid_sizes,
            ask_prices,
            ask_sizes,
            metadata,
        }),
{
    BulkOrderRequest::V1 {
        account,
        order_sequence_number: sequence_number,
        bid_prices,
        bid_sizes,
        ask_prices,
        ask_sizes,
        metadata,
    }
}

/// The answer to a placement that went through.
pub fn new_bulk_order_place_response_success<M: Clone>(
    order: BulkOrder<M>,
    cancelled_bid_prices: Vec<u64>,
    cancelled_bid_sizes: Vec<u64>,
    cancelled_ask_prices: Vec<u64>,
    cancelled_ask_sizes: Vec<u64>,
    previous_seq_num: Option<u64>,
) -> (r: BulkOrderPlaceResponse<M>)
    ensures
        r == (BulkOrderPlaceResponse::SuccessV1 {
            order,
            cancelled_bid_prices,
            cancelled_bid_sizes,
            cancelled_ask_prices,
            cancelled_ask_sizes,
            previous_seq_num,
        }),
{
    BulkOrderPlaceResponse::SuccessV1 {
        order,
        cancelled_bid_prices,
        cancelled_bid_sizes,
        cancelled_ask_prices,
        cancelled_ask_sizes,
        previous_seq_num,
    }
}

/// The answer to a placement refused for its sequence number.
pub fn new_bulk_order_place_response_rejection<M: Clone>(
    account: [u8; 32],
    sequence_number: u64,
    existing_sequence_number: u64,
) -> (r: BulkOrderPlaceResponse<M>)
    ensures
        r == (BulkOrderPlaceResponse::<M>::RejectionV1 { account, sequence_number, existing_sequence_number }),
{
    BulkOrderPlaceResponse::RejectionV1 { account, sequence_number, existing_sequence_number }
}

/// The time priority of the order.
pub fn get_unique_priority_idx<M: Clone>(order: &BulkOrder<M>) -> (r: IncreasingIdx)
    ensures
        r == order->unique_priority_idx,
{
    match order {
        BulkOrder::V1 { unique_priority_idx, .. } => *unique_priority_idx,
    }
}

/// The id of the order.
pub fn get_order_id<M: Clone>(order: &BulkOrder<M>) -> (r: OrderId)
    ensures
        r == order->order_id,
{
    match order {
        BulkOrder::V1 { order_id, .. } => *order_id,
    }
}

/// When the order was made.
pub fn get_creation_time_micros<M: Clone>(order: &BulkOrder<M>) -> (r: u64)
    ensures
        r == order->creation_time_micros,
{
    match order {
        BulkOrder::V1 { creation_time_micros, .. } => *creation_time_micros,
    }
}

/// The request of the order.
pub fn get_order_request<M: Clone>(order: &BulkOrder<M>) -> (r: &BulkOrderRequest<M>)
    ensures
        *r == order->order_request,
{
    match order {
        BulkOrder::V1 { order_request, .. } => order_request,
    }
}

/// A mutable borrow of the request of the order.
pub fn get_order_request_mut<M: Clone>(order: &mut BulkOrder<M>) -> (r: &mut BulkOrderRequest<M>)
    ensures
        *r == old(order)->order_request,
        *final(order) == (BulkOrder::V1 {
            order_request: *final(r),
            order_id: old(order)->order_id,
            unique_priority_idx: old(order)->unique_priority_idx,
            creation_time_micros: old(order)->creation_time_micros,
        }),
{
    match order {
        BulkOrder::V1 { order_request, .. } => order_request,
    }
}

/// The account of the request.
pub fn get_account_from_request<M: Clone>(req: &BulkOrderRequest<M>) -> (r: [u8; 32])
    ensures
        r == req->account,
{
    match req {
        BulkOrderRequest::V1 { account, .. } => *account,
    }
}

/// The sequence number of the request.
pub fn get_sequence_number<M: Clone>(req: &BulkOrderRequest<M>) -> (r: u64)
    ensures
        r == req->order_sequence_number,
{
    match req {
        BulkOrderRequest::V1 { order_sequence_number, .. } => *order_sequence_number,
    }
}

/// The sum of a sequence of sizes.
pub open spec fn sum_sizes(s: Seq<u64>) -> int
    decreases s.len(),
{
    if s.len() == 0 {
        0
    } else {
        sum_sizes(s.drop_last()) + s.last()
    }
}

proof fn lemma_sum_sizes_prefix(s: Seq<u64>, i: int)
    requires
        0 <= i <= s.len(),
    ensures
        0 <= sum_sizes(s.take(i)) <= sum_sizes(s),
    decreases s.len() - i,
{
    if i < s.len() {
        lemma_sum_sizes_prefix(s, i + 1);
        assert(s.take(i + 1).drop_last() =~= s.take(i));
    } else {
        assert(s.take(i) =~= s);
    }
    lemma_sum_sizes_nonneg(s.take(i));
}

proof fn lemma_sum_sizes_nonneg(s: Seq<u64>)
    ensures
        sum_sizes(s) >= 0,
    decreases s.len(),
{
    if s.len() > 0 {
        lemma_sum_sizes_nonneg(s.drop_last());
    }
}

/// The total size left on a side.
pub fn get_total_remaining_size<M: Clone>(req: &BulkOrderRequest<M>, is_bid_side: bool) -> (r: u64)
    requires
        sum_sizes(req.sizes(is_bid_side)) <= u64::MAX,
    ensures
        r == sum_sizes(req.sizes(is_bid_side)),
{
    match req {
        BulkOrderRequest::V1 { bid_sizes, ask_sizes, .. } => {
            let sizes = if is_bid_side {
                bid_sizes
            } else {
                ask_sizes
            };
            let mut total: u64 = 0;
            let mut i: usize = 0;
            while i < sizes.len()
                invariant
                    i <= sizes@.len(),
                    total == sum_sizes(sizes@.take(i as int)),
                    sum_sizes(sizes@) <= u64::MAX,
                decreases sizes@.len() - i,
            {
                proof {
                    lemma_sum_sizes_prefix(sizes@, i + 1);
                    assert(sizes@.take(i + 1).drop_last() =~= sizes@.take(i as int));
                }
                total = total + sizes[i];
                i += 1;
            }
            assert(sizes@.take(i as int) =~= sizes@);
            total
        },
    }
}

/// The first price of a side, where it has one.
pub fn get_active_price<M: Clone>(req: &BulkOrderRequest<M>, is_bid_side: bool) -> (r: Option<u64>)
    ensures
        r == (if req.prices(is_bid_side).len() == 0 {
            None
        } else {
            Some(req.prices(is_bid_side)[0])
        }),
{
    match req {
        BulkOrderRequest::V1 { bid_prices, ask_prices, .. } => {
            let prices = if is_bid_side {
                bid_prices
            } else {
                ask_prices
            };
            if prices.len() == 0 {
                None
            } else {
                Some(prices[0])
            }
        },
    }
}

fn copy_u64s(v: &Vec<u64>) -> (r: Vec<u64>)
    ensures
        r@ == v@,
{
    let mut out: Vec<u64> = Vec::new();
    let mut i: usize = 0;
    while i < v.len()
        invariant
            i <= v@.len(),
            out@ == v@.take(i as int),
        decreases v@.len() - i,
    {
        out.push(v[i]);
        i += 1;
        assert(out@ =~= v@.take(i as int));
    }
    assert(v@.take(i as int) =~= v@);
    out
}

/// The prices of a side.
pub fn get_all_prices<M: Clone>(req: &BulkOrderRequest<M>, is_bid_side: bool) -> (r: Vec<u64>)
    ensures
        r@ == req.prices(is_bid_side),
{
    match req {
        BulkOrderRequest::V1 { bid_prices, ask_prices, .. } => {
            if is_bid_side {
                copy_u64s(bid_prices)
            } else {
                copy_u64s(ask_prices)
            }
        },
    }
}

/// The sizes of a side.
pub fn get_all_sizes<M: Clone>(req: &BulkOrderRequest<M>, is_bid_side: bool) -> (r: Vec<u64>)
    ensures
        r@ == req.sizes(is_bid_side),
{
    match req {
        BulkOrderRequest::V1 { bid_sizes, ask_sizes, .. } => {
            if is_bid_side {
                copy_u64s(bid_sizes)
            } else {
                copy_u64s(ask_sizes)
            }
        },
    }
}

/// A mutable borrow of the prices of a side.
pub fn get_all_prices_mut<M: Clone>(req: &mut BulkOrderRequest<M>, is_bid_side: bool) -> (r: &mut Vec<u64>)
    ensures
        r@ == old(req).prices(is_bid_side),
        final(req).prices(is_bid_side) == final(r)@,
        final(req).sizes(is_bid_side) == old(req).sizes(is_bid_side),
        final(req).same_but_side(*old(req), is_bid_side),
{
    match req {
        BulkOrderRequest::V1 { bid_prices, ask_prices, .. } => {
            if is_bid_side {
                bid_prices
            } else {
                ask_prices
            }
        },
    }
}

/// A mutable borrow of the sizes of a side.
pub fn get_all_sizes_mut<M: Clone>(req: &mut BulkOrderRequest<M>, is_bid_side: bool) -> (r: &mut Vec<u64>)
    ensures
        r@ == old(req).sizes(is_bid_side),
        final(req).sizes(is_bid_side) == final(r)@,
        final(req).prices(is_bid_side) == old(req).prices(is_bid_side),
        final(req).same_but_side(*old(req), is_bid_side),
{
    match req {
        BulkOrderRequest::V1 { bid_sizes, ask_sizes, .. } => {
            if is_bid_side {
                bid_sizes
            } else {
                ask_sizes
            }
        },
    }
}

/// The first size of a side, where it has one.
pub fn get_active_size<M: Clone>(req: &BulkOrderRequest<M>, is_bid_side: bool) -> (r: Option<u64>)
    ensures
        r == (if req.sizes(is_bid_side).len() == 0 {
            None
        } else {
            Some(req.sizes(is_bid_side)[0])
        }),
{
    match req {
        BulkOrderRequest::V1 { bid_sizes, ask_sizes, .. } => {
            let sizes = if is_bid_side {
                bid_sizes
            } else {
                ask_sizes
            };
            if sizes.len() == 0 {
                None
            } else {
                Some(sizes[0])
            }
        },
    }
}

/// Mutable borrows of the prices and the sizes of a side.
pub fn get_prices_and_sizes_mut<M: Clone>(req: &mut BulkOrderRequest<M>, is_bid_side: bool) -> ((prices, sizes): (
    &mut Vec<u64>,
    &mut Vec<u64>,
))
    ensures
        prices@ == old(req).prices(is_bid_side),
        sizes@ == old(req).sizes(is_bid_side),
        final(req).prices(is_bid_side) == final(prices)@,
        final(req).sizes(is_bid_side) == final(sizes)@,
        final(req).same_but_side(*old(req), is_bid_side),
{
    match req {
        BulkOrderRequest::V1 { bid_prices, bid_sizes, ask_prices, ask_sizes, .. } => {
            if is_bid_side {
                (bid_prices, bid_sizes)
            } else {
                (ask_prices, ask_sizes)
            }
        },
    }
}

/// Whether the placement went through.
pub fn is_success_response<M: Clone>(resp: &BulkOrderPlaceResponse<M>) -> (r: bool)
    ensures
        r == (*resp is SuccessV1),
{
    match resp {
        BulkOrderPlaceResponse::SuccessV1 { .. } => true,
        _ => false,
    }
}

/// Whether the placement was refused.
pub fn is_rejection_response<M: Clone>(resp: &BulkOrderPlaceResponse<M>) -> (r: bool)
    ensures
        r == (*resp is RejectionV1),
{
    match resp {
        BulkOrderPlaceResponse::RejectionV1 { .. } => true,
        _ => false,
    }
}

/// The parts of a successful answer.
pub fn destroy_bulk_order_place_response_success<M: Clone>(resp: BulkOrderPlaceResponse<M>) -> (r: (
    BulkOrder<M>,
    Vec<u64>,
    Vec<u64>,
    Vec<u64>,
    Vec<u64>,
    Option<u64>,
))
    requires
        resp is SuccessV1,
    ensures
        r.0 == resp->order,
        r.1 == resp->cancelled_bid_prices,
        r.2 == resp->cancelled_bid_sizes,
        r.3 == resp->cancelled_ask_prices,
        r.4 == resp->cancelled_ask_sizes,
        r.5 == resp->previous_seq_num,
{
    match resp {
        BulkOrderPlaceResponse::SuccessV1 {
            order,
            cancelled_bid_prices,
            cancelled_bid_sizes,
            cancelled_ask_prices,
            cancelled_ask_sizes,
            previous_seq_num,
        } => (order, cancelled_bid_prices, cancelled_bid_sizes, cancelled_ask_prices, cancelled_ask_sizes, previous_seq_num),
        BulkOrderPlaceResponse::RejectionV1 { .. } => vstd::pervasive::unreached(),
    }
}

/// The parts of a rejection.
pub fn destroy_bulk_order_place_response_rejection<M: Clone>(resp: BulkOrderPlaceResponse<M>) -> (r: ([u8; 32], u64, u64))
    requires
        resp is RejectionV1,
    ensures
        r == (resp->account, resp->sequence_number, resp->existing_sequence_number),
{
    match resp {
        BulkOrderPlaceResponse::RejectionV1 { account, sequence_number, existing_sequence_number } => (
            account,
            sequence_number,
            existing_sequence_number,
        ),
        BulkOrderPlaceResponse::SuccessV1 { .. } => vstd::pervasive::unreached(),
    }
}

/// The match of `matched_size` against the first level of a side: the
/// order at that level's price with what the level has left.
pub fn new_bulk_order_match<M: Clone + Copy>(order: &BulkOrder<M>, is_bid_side: bool, matched_size: u64) -> (r: OrderMatch<M>)
    requires
        order->order_request.prices(is_bid_side).len() > 0,
        order->order_request.sizes(is_bid_side).len() > 0,
        matched_size <= order->order_request.sizes(is_bid_side)[0],
    ensures
        ({
            let q = order->order_request;
            r == (OrderMatch::V1 {
                order: OrderMatchDetails::BulkOrder {
                    order_id: order->order_id,
                    account: q->account,
                    unique_priority_idx: order->unique_priority_idx,
                    price: q.prices(is_bid_side)[0],
                    remaining_size: (q.sizes(is_bid_side)[0] - matched_size) as u64,
                    is_bid: is_bid_side,
                    sequence_number: q->order_sequence_number,
                    creation_time_micros: order->creation_time_micros,
                    metadata: q->metadata,
                },
                matched_size,
            })
        }),
{
    match order {
        BulkOrder::V1 { order_request, order_id, unique_priority_idx, creation_time_micros } => match order_request {
            BulkOrderRequest::V1 {
                account,
                order_sequence_number,
                bid_prices,
                bid_sizes,
                ask_prices,
                ask_sizes,
                metadata,
            } => {
                let (price, remaining_size) = if is_bid_side {
                    (bid_prices[0], bid_sizes[0] - matched_size)
                } else {
                    (ask_prices[0], ask_sizes[0] - matched_size)
                };
                new_order_match(
                    new_bulk_order_match_details(
                        *order_id,
                        *account,
                        *unique_priority_idx,
                        price,
                        remaining_size,
                        is_bid_side,
                        *order_sequence_number,
                        *creation_time_micros,
                        *metadata,
                    ),
                    matched_size,
                )
            },
        },
    }
}

/// Empties all four level vectors of the order.
pub fn set_empty<M: Clone>(order: &mut BulkOrder<M>)
    ensures
        final(order)->order_request.prices(true).len() == 0,
        final(order)->order_request.sizes(true).len() == 0,
        final(order)->order_request.prices(false).len() == 0,
        final(order)->order_request.sizes(false).len() == 0,
        final(order)->order_request->account == old(order)->order_request->account,
        final(order)->order_request->order_sequence_number == old(order)->order_request->order_sequence_number,
        final(order)->order_request->metadata == old(order)->order_request->metadata,
        final(order)->order_id == old(order)->order_id,
        final(order)->unique_priority_idx == old(order)->unique_priority_idx,
        final(order)->creation_time_micros == old(order)->creation_time_micros,
{
    match order {
        BulkOrder::V1 { order_request, .. } => match order_request {
            BulkOrderRequest::V1 { bid_prices, bid_sizes, ask_prices, ask_sizes, .. } => {
                bid_prices.clear();
                bid_sizes.clear();
                ask_prices.clear();
                ask_sizes.clear();
            },
        },
    }
}

/// The parts of a bulk order.
pub fn destroy_bulk_order<M: Clone>(order: BulkOrder<M>) -> (r: (BulkOrderRequest<M>, OrderId, IncreasingIdx, u64))
    ensures
        r == (order->order_request, order->order_id, order->unique_priority_idx, order->creation_time_micros),
{
    match order {
        BulkOrder::V1 { order_request, order_id, unique_priority_idx, creation_time_micros } => (
            order_request,
            order_id,
            unique_priority_idx,
            creation_time_micros,
        ),
    }
}

/// The parts of a bulk order request.
pub fn destroy_bulk_order_request<M: Clone>(req: BulkOrderRequest<M>) -> (r: (
    [u8; 32],
    u64,
    Vec<u64>,
    Vec<u64>,
    Vec<u64>,
    Vec<u64>,
    M,
))
    ensures
        r == (
            req->account,
            req->order_sequence_number,
            req->bid_prices,
            req->bid_sizes,
            req->ask_prices,
            req->ask_sizes,
            req->metadata,
        ),
{
    match req {
        BulkOrderRequest::V1 { account, order_sequence_number, bid_prices, bid_sizes, ask_prices, ask_sizes, metadata } => (
            account,
            order_sequence_number,
            bid_prices,
            bid_sizes,
            ask_prices,
            ask_sizes,
            metadata,
        ),
    }
}

} // verus!
