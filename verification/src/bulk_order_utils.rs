//! Checking and trimming bulk orders: a request is checked before it is
//! accepted, levels that would cross the book are dropped when the order is
//! placed, and matches, re-insertions and cancellations at a level change
//! the levels.
use vstd::prelude::*;
use crate::bulk_order_types::{
    get_all_prices, get_all_prices_mut, get_all_sizes_mut, get_order_request, get_order_request_mut, get_prices_and_sizes_mut,
    new_bulk_order, new_bulk_order_request, BulkOrder, BulkOrderRequest,
};
use crate::order_book_types::{IncreasingIdx, OrderId};
use crate::order_match_types::{
    details_is_bid, details_price, details_remaining_size, get_price_from_match_details,
    get_remaining_size_from_match_details, is_bid_from_match_details, OrderMatchDetails,
};

verus! {

pub const EPRICE_CROSSING: u64 = 1;

pub const E_BID_LENGTH_MISMATCH: u64 = 2;

pub const E_ASK_LENGTH_MISMATCH: u64 = 3;

pub const E_EMPTY_ORDER: u64 = 4;

pub const E_BID_SIZE_ZERO: u64 = 5;

pub const E_ASK_SIZE_ZERO: u64 = 6;

pub const E_BID_ORDER_INVALID: u64 = 7;

pub const E_ASK_ORDER_INVALID: u64 = 8;

pub const E_BULK_ORDER_DEPTH_EXCEEDED: u64 = 9;

pub const E_INVALID_SEQUENCE_NUMBER: u64 = 10;

pub const EUNEXPECTED_MATCH_SIZE: u64 = 11;

/// The most levels a side may have.
pub const MAX_BULK_ORDER_DEPTH_PER_SIDE: u64 = 40;

/// Whether no size is zero.
pub open spec fn no_zero_sizes(s: Seq<u64>) -> bool {
    forall|i: int| 0 <= i < s.len() ==> #[trigger] s[i] != 0
}

/// Whether the prices fall strictly (`descending`) or rise strictly.
pub open spec fn strictly_ordered(s: Seq<u64>, descending: bool) -> bool {
    forall|i: int|
        0 <= i < s.len() - 1 ==> if descending {
            #[trigger] s[i] > s[i + 1]
        } else {
            s[i] < s[i + 1]
        }
}

/// The error a bulk request gets, checked in this order: a zero sequence
/// number; a side whose prices and sizes differ in number; no level at
/// all; a side over the depth limit; a zero size; bids not strictly
/// falling or asks not strictly rising; a best bid at or above the best ask.
pub open spec fn bulk_request_error(
    sequence_number: u64,
    bid_prices: Seq<u64>,
    bid_sizes: Seq<u64>,
    ask_prices: Seq<u64>,
    ask_sizes: Seq<u64>,
) -> Option<u64> {
    if sequence_number == 0 {
        Some(E_INVALID_SEQUENCE_NUMBER)
    } else if bid_prices.len() != bid_sizes.len() {
        Some(E_BID_LENGTH_MISMATCH)
    } else if ask_prices.len() != ask_sizes.len() {
        Some(E_ASK_LENGTH_MISMATCH)
    } else if bid_prices.len() == 0 && ask_prices.len() == 0 {
        Some(E_EMPTY_ORDER)
    } else if bid_prices.len() > MAX_BULK_ORDER_DEPTH_PER_SIDE || ask_prices.len() > MAX_BULK_ORDER_DEPTH_PER_SIDE {
        Some(E_BULK_ORDER_DEPTH_EXCEEDED)
    } else if !no_zero_sizes(bid_sizes) {
        Some(E_BID_SIZE_ZERO)
    } else if !no_zero_sizes(ask_sizes) {
        Some(E_ASK_SIZE_ZERO)
    } else if !strictly_ordered(bid_prices, true) {
        Some(E_BID_ORDER_INVALID)
    } else if !strictly_ordered(ask_prices, false) {
        Some(E_ASK_ORDER_INVALID)
    } else if bid_prices.len() > 0 && ask_prices.len() > 0 && bid_prices[0] >= ask_prices[0] {
        Some(EPRICE_CROSSING)
    } else {
        None
    }
}

fn validate_not_zero_sizes(sizes: &[u64]) -> (r: bool)
    ensures
        r == no_zero_sizes(sizes@),
{
    let mut i: usize = 0;
    while i < sizes.len()
        invariant
            i <= sizes@.len(),
            forall|j: int| 0 <= j < i ==> #[trigger] sizes@[j] != 0,
        decreases sizes@.len() - i,
    {
        if sizes[i] == 0 {
            return false;
        }
        i += 1;
    }
    true
}

fn validate_price_ordering(prices: &[u64], is_descending: bool) -> (r: bool)
    ensures
        r == strictly_ordered(prices@, is_descending),
{
    if prices.len() == 0 {
        return true;
    }
    let mut i: usize = 0;
    while i < prices.len() - 1
        invariant
            prices@.len() > 0,
            i <= prices@.len() - 1,
            forall|j: int|
                0 <= j < i ==> if is_descending {
                    #[trigger] prices@[j] > prices@[j + 1]
                } else {
                    prices@[j] < prices@[j + 1]
                },
        decreases prices@.len() - 1 - i,
    {
        if is_descending {
            if prices[i] <= prices[i + 1] {
                return false;
            }
        } else {
            if prices[i] >= prices[i + 1] {
                return false;
            }
        }
        i += 1;
    }
    true
}

/// Checks a bulk request and makes it where it passes.
pub fn new_bulk_order_request_with_sanitization<M: Clone>(
    account: [u8; 32],
    sequence_number: u64,
    bid_prices: Vec<u64>,
    bid_sizes: Vec<u64>,
    ask_prices: Vec<u64>,
    ask_sizes: Vec<u64>,
    metadata: M,
) -> (r: Result<BulkOrderRequest<M>, u64>)
    ensures
        match bulk_request_error(sequence_number, bid_prices@, bid_sizes@, ask_prices@, ask_sizes@) {
            Some(e) => r == Err::<BulkOrderRequest<M>, u64>(e),
            None => r == Ok::<BulkOrderRequest<M>, u64>(
                BulkOrderRequest::V1 {
                    account,
                    order_sequence_number: sequence_number,
                    bid_prices,
                    bid_sizes,
                    ask_prices,
                    ask_sizes,
                    metadata,
                },
            ),
        },
{
    if sequence_number == 0 {
        return Err(E_INVALID_SEQUENCE_NUMBER);
    }
    let num_bids = bid_prices.len();
    let num_asks = ask_prices.len();
    if num_bids != bid_sizes.len() {
        return Err(E_BID_LENGTH_MISMATCH);
    }
    if num_asks != ask_sizes.len() {
        return Err(E_ASK_LENGTH_MISMATCH);
    }
    if num_bids == 0 && num_asks == 0 {
        return Err(E_EMPTY_ORDER);
    }
    if num_bids > 40 {
        return Err(E_BULK_ORDER_DEPTH_EXCEEDED);
    }
    if num_asks > 40 {
        return Err(E_BULK_ORDER_DEPTH_EXCEEDED);
    }
    if !validate_not_zero_sizes(bid_sizes.as_slice()) {
        return Err(E_BID_SIZE_ZERO);
    }
    if !validate_not_zero_sizes(ask_sizes.as_slice()) {
        return Err(E_ASK_SIZE_ZERO);
    }
    if !validate_price_ordering(bid_prices.as_slice(), true) {
        return Err(E_BID_ORDER_INVALID);
    }
    if !validate_price_ordering(ask_prices.as_slice(), false) {
        return Err(E_ASK_ORDER_INVALID);
    }
    if num_bids > 0 && num_asks > 0 {
        if bid_prices[0] >= ask_prices[0] {
            return Err(EPRICE_CROSSING);
        }
    }
    Ok(new_bulk_order_request(account, sequence_number, bid_prices, bid_sizes, ask_prices, ask_sizes, metadata))
}

/// The number of leading levels that would cross the book: bids at or
/// above the best ask, or asks at or below the best bid; none where the
/// other side is empty.
pub open spec fn crossing_levels(prices: Seq<u64>, best_price: Option<u64>, is_bid_side: bool) -> nat
    decreases prices.len(),
{
    match best_price {
        None => 0,
        Some(b) => if prices.len() == 0 || (is_bid_side && prices[0] < b) || (!is_bid_side && prices[0] > b) {
            0
        } else {
            1 + crossing_levels(prices.drop_first(), best_price, is_bid_side)
        },
    }
}

proof fn lemma_crossing_levels_step(prices: Seq<u64>, best_price: Option<u64>, is_bid_side: bool, i: int)
    requires
        best_price is Some,
        0 <= i <= prices.len(),
        forall|j: int|
            0 <= j < i ==> !((is_bid_side && #[trigger] prices[j] < best_price->0) || (!is_bid_side && prices[j]
                > best_price->0)),
    ensures
        crossing_levels(prices, best_price, is_bid_side) == i + crossing_levels(prices.skip(i), best_price, is_bid_side),
    decreases i,
{
    if i > 0 {
        assert forall|j: int|
            0 <= j < i - 1 implies !((is_bid_side && #[trigger] prices.drop_first()[j] < best_price->0) || (
            !is_bid_side && prices.drop_first()[j] > best_price->0)) by {
            assert(prices.drop_first()[j] == prices[j + 1]);
        }
        lemma_crossing_levels_step(prices.drop_first(), best_price, is_bid_side, i - 1);
        assert(prices.drop_first().skip(i - 1) =~= prices.skip(i));
    } else {
        assert(prices.skip(0) =~= prices);
    }
}

fn discard_price_crossing_levels(prices: &[u64], best_price: Option<u64>, is_bid_side: bool) -> (r: usize)
    ensures
        r == crossing_levels(prices@, best_price, is_bid_side),
        r <= prices@.len(),
{
    let mut i: usize = 0;
    if let Some(best) = best_price {
        while i < prices.len()
            invariant_except_break
                i <= prices@.len(),
                best_price == Some(best),
                forall|j: int|
                    0 <= j < i ==> !((is_bid_side && #[trigger] prices@[j] < best) || (!is_bid_side && prices@[j]
                        > best)),
            ensures
                i <= prices@.len(),
                forall|j: int|
                    0 <= j < i ==> !((is_bid_side && #[trigger] prices@[j] < best) || (!is_bid_side && prices@[j]
                        > best)),
                i < prices@.len() ==> ((is_bid_side && prices@[i as int] < best) || (!is_bid_side && prices@[i as int]
                    > best)),
            decreases prices@.len() - i,
        {
            if is_bid_side && prices[i] < best {
                break;
            } else if !is_bid_side && prices[i] > best {
                break;
            }
            i += 1;
        }
        proof {
            lemma_crossing_levels_step(prices@, best_price, is_bid_side, i as int);
            if (i as int) < prices@.len() {
                assert(prices@.skip(i as int)[0] == prices@[i as int]);
            }
        }
    }
    i
}

fn trim_start(v: &mut Vec<u64>, new_start: usize) -> (r: Vec<u64>)
    requires
        new_start <= old(v)@.len(),
    ensures
        r@ == old(v)@.take(new_start as int),
        final(v)@ == old(v)@.skip(new_start as int),
{
    let mut trimmed: Vec<u64> = Vec::new();
    let ghost s = v@;
    let mut i: usize = 0;
    while i < new_start
        invariant
            i <= new_start <= s.len(),
            trimmed@ == s.take(i as int),
            v@ == s.skip(i as int),
        decreases new_start - i,
    {
        let x = v.remove(0);
        trimmed.push(x);
        proof {
            assert(trimmed@ =~= s.take(i + 1));
            assert(v@ =~= s.skip(i + 1));
        }
        i += 1;
    }
    trimmed
}

/// Makes a bulk order from a request, first dropping from each side the
/// leading levels that would cross the other side's best price; the
/// order and the dropped bid and ask prices and sizes come back.
pub fn new_bulk_order_with_sanitization<M: Clone>(
    order_id: OrderId,
    unique_priority_idx: IncreasingIdx,
    order_req: BulkOrderRequest<M>,
    best_bid_price: Option<u64>,
    best_ask_price: Option<u64>,
    creation_time_micros: u64,
) -> (r: (BulkOrder<M>, Vec<u64>, Vec<u64>, Vec<u64>, Vec<u64>))
    requires
        crossing_levels(order_req.prices(true), best_ask_price, true) <= order_req.sizes(true).len(),
        crossing_levels(order_req.prices(false), best_bid_price, false) <= order_req.sizes(false).len(),
    ensures
        ({
            let bi = crossing_levels(order_req.prices(true), best_ask_price, true) as int;
            let ai = crossing_levels(order_req.prices(false), best_bid_price, false) as int;
            let q = r.0->order_request;
            &&& r.0->order_id == order_id
            &&& r.0->unique_priority_idx == unique_priority_idx
            &&& r.0->creation_time_micros == creation_time_micros
            &&& q->account == order_req->account
            &&& q->order_sequence_number == order_req->order_sequence_number
            &&& q->metadata == order_req->metadata
            &&& q.prices(true) == order_req.prices(true).skip(bi)
            &&& q.sizes(true) == order_req.sizes(true).skip(bi)
            &&& q.prices(false) == order_req.prices(false).skip(ai)
            &&& q.sizes(false) == order_req.sizes(false).skip(ai)
            &&& r.1@ == order_req.prices(true).take(bi)
            &&& r.2@ == order_req.sizes(true).take(bi)
            &&& r.3@ == order_req.prices(false).take(ai)
            &&& r.4@ == order_req.sizes(false).take(ai)
        }),
{
    let mut order_req = order_req;
    let bid_price_crossing_idx = discard_price_crossing_levels(
        get_all_prices(&order_req, true).as_slice(),
        best_ask_price,
        true,
    );
    let ask_price_crossing_idx = discard_price_crossing_levels(
        get_all_prices(&order_req, false).as_slice(),
        best_bid_price,
        false,
    );
    let ghost q0 = order_req;
    let (cancelled_bid_prices, cancelled_bid_sizes) = if bid_price_crossing_idx > 0 {
        let cp = trim_start(get_all_prices_mut(&mut order_req, true), bid_price_crossing_idx);
        let cs = trim_start(get_all_sizes_mut(&mut order_req, true), bid_price_crossing_idx);
        (cp, cs)
    } else {
        proof {
            assert(q0.prices(true).skip(0) =~= q0.prices(true));
            assert(q0.sizes(true).skip(0) =~= q0.sizes(true));
            assert(q0.prices(true).take(0) =~= Seq::<u64>::empty());
            assert(q0.sizes(true).take(0) =~= Seq::<u64>::empty());
        }
        (Vec::new(), Vec::new())
    };
    let ghost q1 = order_req;
    let (cancelled_ask_prices, cancelled_ask_sizes) = if ask_price_crossing_idx > 0 {
        let cp = trim_start(get_all_prices_mut(&mut order_req, false), ask_price_crossing_idx);
        let cs = trim_start(get_all_sizes_mut(&mut order_req, false), ask_price_crossing_idx);
        (cp, cs)
    } else {
        proof {
            assert(q1.prices(false).skip(0) =~= q1.prices(false));
            assert(q1.sizes(false).skip(0) =~= q1.sizes(false));
            assert(q1.prices(false).take(0) =~= Seq::<u64>::empty());
            assert(q1.sizes(false).take(0) =~= Seq::<u64>::empty());
        }
        (Vec::new(), Vec::new())
    };
    let bulk_order = new_bulk_order(order_req, order_id, unique_priority_idx, creation_time_micros);
    (bulk_order, cancelled_bid_prices, cancelled_bid_sizes, cancelled_ask_prices, cancelled_ask_sizes)
}

/// Puts the unmatched rest of an order back at the front of its side of a
/// bulk order: onto the first level where the price is the same, else as a
/// new first level.
pub fn reinsert_order_into_bulk_order<M: Clone + Copy>(order: &mut BulkOrder<M>, other: &OrderMatchDetails<M>)
    requires
        ({
            let q = old(order)->order_request;
            let side = details_is_bid(*other);
            q.prices(side).len() > 0 && q.prices(side)[0] == details_price(*other) ==> q.sizes(side).len() > 0
                && q.sizes(side)[0] + details_remaining_size(*other) <= u64::MAX
        }),
    ensures
        ({
            let q = old(order)->order_request;
            let f = final(order)->order_request;
            let side = details_is_bid(*other);
            &&& f.same_but_side(q, side)
            &&& final(order)->order_id == old(order)->order_id
            &&& final(order)->unique_priority_idx == old(order)->unique_priority_idx
            &&& final(order)->creation_time_micros == old(order)->creation_time_micros
            &&& if q.prices(side).len() > 0 && q.prices(side)[0] == details_price(*other) {
                &&& f.prices(side) == q.prices(side)
                &&& f.sizes(side) == q.sizes(side).update(
                    0,
                    (q.sizes(side)[0] + details_remaining_size(*other)) as u64,
                )
            } else {
                &&& f.prices(side) == q.prices(side).insert(0, details_price(*other))
                &&& f.sizes(side) == q.sizes(side).insert(0, details_remaining_size(*other))
            }
        }),
{
    let is_bid_side = is_bid_from_match_details(other);
    let other_price = get_price_from_match_details(other);
    let other_size = get_remaining_size_from_match_details(other);
    let req = get_order_request_mut(order);
    let (prices, sizes) = get_prices_and_sizes_mut(req, is_bid_side);
    if prices.len() > 0 && prices[0] == other_price {
        let s0 = sizes[0];
        sizes.set(0, s0 + other_size);
    } else {
        prices.insert(0, other_price);
        sizes.insert(0, other_size);
    }
}

/// Takes `matched_size` off the first level of a side, dropping the level
/// when it is used up; the price and size of the new first level come
/// back, or nothing where the side is empty.
pub fn match_order_and_get_next_from_bulk_order<M: Clone>(order: &mut BulkOrder<M>, is_bid_side: bool, matched_size: u64) -> (r: (
    Option<u64>,
    Option<u64>,
))
    requires
        ({
            let q = old(order)->order_request;
            &&& q.sizes(is_bid_side).len() > 0
            &&& q.prices(is_bid_side).len() > 0
            &&& matched_size <= q.sizes(is_bid_side)[0]
            &&& matched_size == q.sizes(is_bid_side)[0] && q.sizes(is_bid_side).len() > 1 ==> q.prices(
                is_bid_side,
            ).len() > 1
        }),
    ensures
        ({
            let q = old(order)->order_request;
            let f = final(order)->order_request;
            let left = (q.sizes(is_bid_side)[0] - matched_size) as u64;
            &&& f.same_but_side(q, is_bid_side)
            &&& final(order)->order_id == old(order)->order_id
            &&& final(order)->unique_priority_idx == old(order)->unique_priority_idx
            &&& final(order)->creation_time_micros == old(order)->creation_time_micros
            &&& if left == 0 {
                &&& f.prices(is_bid_side) == q.prices(is_bid_side).drop_first()
                &&& f.sizes(is_bid_side) == q.sizes(is_bid_side).drop_first()
            } else {
                &&& f.prices(is_bid_side) == q.prices(is_bid_side)
                &&& f.sizes(is_bid_side) == q.sizes(is_bid_side).update(0, left)
            }
            &&& r == (if f.sizes(is_bid_side).len() == 0 {
                (None::<u64>, None::<u64>)
            } else {
                (Some(f.prices(is_bid_side)[0]), Some(f.sizes(is_bid_side)[0]))
            })
        }),
{
    let req = get_order_request_mut(order);
    let (prices, sizes) = get_prices_and_sizes_mut(req, is_bid_side);
    let ghost ps = prices@;
    let ghost ss = sizes@;
    let left = sizes[0] - matched_size;
    sizes.set(0, left);
    if left == 0 {
        prices.remove(0);
        sizes.remove(0);
        assert(prices@ =~= ps.drop_first());
        assert(sizes@ =~= ss.drop_first());
    }
    if sizes.len() == 0 {
        (None, None)
    } else {
        (Some(prices[0]), Some(sizes[0]))
    }
}

/// Where `price` first stands among a side's prices.
pub open spec fn level_index(prices: Seq<u64>, price: u64) -> Option<int>
    decreases prices.len(),
{
    if prices.len() == 0 {
        None
    } else if prices[0] == price {
        Some(0)
    } else {
        match level_index(prices.drop_first(), price) {
            Some(i) => Some(i + 1),
            None => None,
        }
    }
}

proof fn lemma_level_index(prices: Seq<u64>, price: u64, i: int)
    requires
        0 <= i <= prices.len(),
        forall|j: int| 0 <= j < i ==> #[trigger] prices[j] != price,
    ensures
        level_index(prices, price) == match level_index(prices.skip(i), price) {
            Some(k) => Some(k + i),
            None => None::<int>,
        },
    decreases i,
{
    if i > 0 {
        assert forall|j: int| 0 <= j < i - 1 implies #[trigger] prices.drop_first()[j] != price by {
            assert(prices.drop_first()[j] == prices[j + 1]);
        }
        lemma_level_index(prices.drop_first(), price, i - 1);
        assert(prices.drop_first().skip(i - 1) =~= prices.skip(i));
    } else {
        assert(prices.skip(0) =~= prices);
        match level_index(prices, price) {
            Some(k) => {},
            None => {},
        }
    }
}

/// Removes the level at `price` from a side, giving back its size, or 0
/// where the side has no such level.
pub fn cancel_at_price_level<M: Clone>(order: &mut BulkOrder<M>, price: u64, is_bid_side: bool) -> (r: u64)
    requires
        level_index(old(order)->order_request.prices(is_bid_side), price) matches Some(i) ==> i < old(
            order,
        )->order_request.sizes(is_bid_side).len(),
    ensures
        ({
            let q = old(order)->order_request;
            let f = final(order)->order_request;
            &&& f.same_but_side(q, is_bid_side)
            &&& final(order)->order_id == old(order)->order_id
            &&& final(order)->unique_priority_idx == old(order)->unique_priority_idx
            &&& final(order)->creation_time_micros == old(order)->creation_time_micros
            &&& match level_index(q.prices(is_bid_side), price) {
                Some(i) => {
                    &&& r == q.sizes(is_bid_side)[i]
                    &&& f.prices(is_bid_side) == q.prices(is_bid_side).remove(i)
                    &&& f.sizes(is_bid_side) == q.sizes(is_bid_side).remove(i)
                },
                None => {
                    &&& r == 0
                    &&& f.prices(is_bid_side) == q.prices(is_bid_side)
                    &&& f.sizes(is_bid_side) == q.sizes(is_bid_side)
                },
            }
        }),
{
    let ghost ps = old(order)->order_request.prices(is_bid_side);
    let mut found: Option<usize> = None;
    {
        let prices: &Vec<u64> = match get_order_request(order) {
            BulkOrderRequest::V1 { bid_prices, ask_prices, .. } => if is_bid_side {
                bid_prices
            } else {
                ask_prices
            },
        };
        let mut i: usize = 0;
        while i < prices.len()
            invariant_except_break
                found is None,
            invariant
                i <= prices@.len(),
                prices@ == ps,
                forall|j: int| 0 <= j < i ==> #[trigger] ps[j] != price,
            ensures
                found matches Some(k) ==> k < ps.len() && level_index(ps, price) == Some(k as int),
                found is None ==> i == ps.len(),
            decreases prices@.len() - i,
        {
            if prices[i] == price {
                proof {
                    lemma_level_index(ps, price, i as int);
                    assert(ps.skip(i as int)[0] == ps[i as int]);
                }
                found = Some(i);
                break;
            }
            i += 1;
        }
        proof {
            if found is None {
                lemma_level_index(ps, price, i as int);
            }
        }
    }
    match found {
        Some(i) => {
            let req = get_order_request_mut(order);
            let (prices, sizes) = get_prices_and_sizes_mut(req, is_bid_side);
            let cancelled_size = sizes[i];
            prices.remove(i);
            sizes.remove(i);
            cancelled_size
        },
        None => 0,
    }
}

} // verus!
