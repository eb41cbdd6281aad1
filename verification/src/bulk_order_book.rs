//! The book of bulk orders: at most one bulk order per account, and the
//! account that each bulk order id belongs to.
use vstd::prelude::*;
use crate::bulk_order_types::{
    get_account_from_request, get_order_request, get_sequence_number, get_total_remaining_size,
    new_bulk_order_place_response_rejection, sum_sizes, BulkOrder, BulkOrderPlaceResponse, BulkOrderRequest,
};
use crate::order_book_types::OrderId;
use crate::order_book_utils::BigOrderedMap;

verus! {

pub const EORDER_ALREADY_EXISTS: u64 = 1;

pub const EORDER_NOT_FOUND: u64 = 2;

pub const E_REINSERT_ORDER_MISMATCH: u64 = 3;

pub const ENOT_BULK_ORDER: u64 = 4;

/// The bulk orders by account, and the account of each order id.
#[derive(Debug)]
pub enum BulkOrderBook<M: Clone> {
    V1 { orders: BigOrderedMap<[u8; 32], BulkOrder<M>>, order_id_to_address: BigOrderedMap<OrderId, [u8; 32]> },
}

impl<M: Clone> BulkOrderBook<M> {
    pub open spec fn orders_map(self) -> BigOrderedMap<[u8; 32], BulkOrder<M>> {
        self->orders
    }

    pub open spec fn addresses_map(self) -> BigOrderedMap<OrderId, [u8; 32]> {
        self->order_id_to_address
    }

    /// Both maps are sorted.
    pub open spec fn wf(self) -> bool {
        self.orders_map().wf() && self.addresses_map().wf()
    }
}

/// A book with no orders.
pub fn new_bulk_order_book<M: Clone>() -> (r: BulkOrderBook<M>)
    ensures
        r.wf(),
        r.orders_map()@ == Map::<[u8; 32], BulkOrder<M>>::empty(),
        r.addresses_map()@ == Map::<OrderId, [u8; 32]>::empty(),
{
    BulkOrderBook::V1 { orders: BigOrderedMap::new(), order_id_to_address: BigOrderedMap::new() }
}

fn copy_levels(v: &Vec<u64>) -> (r: Vec<u64>)
    ensures
        r@ == v@,
{
    let r = v.clone();
    proof {
        assert forall|i: int| 0 <= i < v@.len() implies r@[i] == v@[i] by {
            assert(cloned::<u64>(v[i], r[i]));
        }
        assert(r@ =~= v@);
    }
    r
}

/// A copy of `order`; its metadata is a clone of the order's.
fn copy_bulk_order<M: Clone>(order: &BulkOrder<M>) -> (r: BulkOrder<M>)
    ensures
        r->order_id == order->order_id,
        r->unique_priority_idx == order->unique_priority_idx,
        r->creation_time_micros == order->creation_time_micros,
        r->order_request->account == order->order_request->account,
        r->order_request->order_sequence_number == order->order_request->order_sequence_number,
        r->order_request.prices(true) == order->order_request.prices(true),
        r->order_request.sizes(true) == order->order_request.sizes(true),
        r->order_request.prices(false) == order->order_request.prices(false),
        r->order_request.sizes(false) == order->order_request.sizes(false),
        cloned::<M>(order->order_request->metadata, r->order_request->metadata),
{
    match order {
        BulkOrder::V1 { order_request, order_id, unique_priority_idx, creation_time_micros } => match order_request {
            BulkOrderRequest::V1 {
                account,
                order_sequence_number,
                bid_prices,
                bid_sizes,
                ask_prices,
                ask_sizes,
                metadata,
            } => BulkOrder::V1 {
                order_request: BulkOrderRequest::V1 {
                    account: *account,
                    order_sequence_number: *order_sequence_number,
                    bid_prices: copy_levels(bid_prices),
                    bid_sizes: copy_levels(bid_sizes),
                    ask_prices: copy_levels(ask_prices),
                    ask_sizes: copy_levels(ask_sizes),
                    metadata: metadata.clone(),
                },
                order_id: *order_id,
                unique_priority_idx: *unique_priority_idx,
                creation_time_micros: *creation_time_micros,
            },
        },
    }
}

/// The bulk order of `account`, which must have one; its metadata is a
/// clone of the stored one.
pub fn get_bulk_order<M: Clone>(book: &BulkOrderBook<M>, account: [u8; 32]) -> (r: BulkOrder<M>)
    requires
        book.wf(),
        book.orders_map()@.contains_key(account),
    ensures
        ({
            let o = book.orders_map()@[account];
            &&& r->order_id == o->order_id
            &&& r->unique_priority_idx == o->unique_priority_idx
            &&& r->creation_time_micros == o->creation_time_micros
            &&& r->order_request->account == o->order_request->account
            &&& r->order_request->order_sequence_number == o->order_request->order_sequence_number
            &&& r->order_request.prices(true) == o->order_request.prices(true)
            &&& r->order_request.sizes(true) == o->order_request.sizes(true)
            &&& r->order_request.prices(false) == o->order_request.prices(false)
            &&& r->order_request.sizes(false) == o->order_request.sizes(false)
            &&& cloned::<M>(o->order_request->metadata, r->order_request->metadata)
        }),
{
    match book {
        BulkOrderBook::V1 { orders, .. } => copy_bulk_order(orders.borrow(&account)),
    }
}

/// The total size left on one side of the bulk order of `account`, which
/// must have one.
pub fn get_remaining_size<M: Clone>(book: &BulkOrderBook<M>, account: [u8; 32], is_bid_side: bool) -> (r: u64)
    requires
        book.wf(),
        book.orders_map()@.contains_key(account),
        sum_sizes(book.orders_map()@[account]->order_request.sizes(is_bid_side)) <= u64::MAX,
    ensures
        r == sum_sizes(book.orders_map()@[account]->order_request.sizes(is_bid_side)),
{
    match book {
        BulkOrderBook::V1 { orders, .. } => get_total_remaining_size(
            get_order_request(orders.borrow(&account)),
            is_bid_side,
        ),
    }
}

/// The first step of placing a bulk order: a request whose sequence
/// number is not above that of the account's order on the book is refused,
/// the refusal naming both numbers, and the book keeps that order; else the
/// placement goes on, with the sequence number of the order it replaces,
/// where the account has one.
pub fn check_bulk_order_sequence<M: Clone>(book: &BulkOrderBook<M>, order_req: &BulkOrderRequest<M>) -> (r: Result<
    Option<u64>,
    BulkOrderPlaceResponse<M>,
>)
    requires
        book.wf(),
    ensures
        ({
            let account = order_req->account;
            let seq = order_req->order_sequence_number;
            let orders = book.orders_map()@;
            let existing = orders[account]->order_request->order_sequence_number;
            &&& !orders.contains_key(account) ==> r == Ok::<Option<u64>, BulkOrderPlaceResponse<M>>(None)
            &&& orders.contains_key(account) && seq <= existing ==> r == Err::<
                Option<u64>,
                BulkOrderPlaceResponse<M>,
            >(
                BulkOrderPlaceResponse::RejectionV1 {
                    account,
                    sequence_number: seq,
                    existing_sequence_number: existing,
                },
            )
            &&& orders.contains_key(account) && seq > existing ==> r == Ok::<
                Option<u64>,
                BulkOrderPlaceResponse<M>,
            >(Some(existing))
        }),
{
    let account = get_account_from_request(order_req);
    let new_sequence_number = get_sequence_number(order_req);
    match book {
        BulkOrderBook::V1 { orders, .. } => {
            if !orders.contains(&account) {
                return Ok(None);
            }
            let existing_sequence_number = get_sequence_number(get_order_request(orders.borrow(&account)));
            if new_sequence_number <= existing_sequence_number {
                return Err(
                    new_bulk_order_place_response_rejection(account, new_sequence_number, existing_sequence_number),
                );
            }
            Ok(Some(existing_sequence_number))
        },
    }
}

} // verus!
