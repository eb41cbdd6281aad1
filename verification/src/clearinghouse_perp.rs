//! The clearinghouse of the perpetual markets: the open-interest cap on a
//! fill, the first checks on a placement, and the settlement entry points
//! with the errors they raise before any state is touched.
use vstd::prelude::*;
use crate::addr_map::addr_eq;
use crate::order_placement_utils::CallbackAction;

verus! {

pub const EINVALID_SIZE_IS_ZERO: u64 = 1;

pub const EINVALID_PRICE_IS_ZERO: u64 = 2;

pub const EINVALID_SETTLE_RESULT: u64 = 3;

pub const ESELF_TRADE_NOT_ALLOWED: u64 = 4;

pub const ENOT_REDUCE_ONLY: u64 = 5;

/// The largest `i64`, as a `u64`: the open-interest delta that stands for
/// no cap at all.
pub const MAX_I64: u64 = 0x7fff_ffff_ffff_ffff;

/// The input of a trade settlement.
#[derive(Clone, Debug)]
pub struct SettleTradeInput {
    pub taker: [u8; 32],
    pub maker: [u8; 32],
    pub taker_order_id: u128,
    pub maker_order_id: u128,
    pub taker_client_order_id: Option<String>,
    pub maker_client_order_id: Option<String>,
    pub is_taker_long: bool,
    pub settled_price: u64,
    pub size: u64,
    pub maker_limit_price: u64,
    pub fill_id: u128,
}

/// What a trade settlement gives back.
#[derive(Clone, Debug)]
pub struct SettleTradeOutput {
    pub settled_size: u64,
    pub maker_cancellation_reason: Option<String>,
    pub taker_cancellation_reason: Option<String>,
    pub should_stop_matching: bool,
}

/// What a backstop liquidation or an ADL settlement gives back.
#[derive(Clone, Debug)]
pub struct BackstopSettlementOutput {
    pub filled_size: Option<u64>,
    pub maker_covered_loss: u64,
}

/// A `u64` read as an `i64` of the same bits.
pub open spec fn u64_bits_as_i64(x: u64) -> int {
    if x <= i64::MAX {
        x as int
    } else {
        x - 0x1_0000_0000_0000_0000
    }
}

/// An `i64` read as a `u64` of the same bits.
pub open spec fn i64_bits_as_u64(x: i64) -> int {
    if x >= 0 {
        x as int
    } else {
        x + 0x1_0000_0000_0000_0000
    }
}

fn reinterpret_u64(x: u64) -> (r: i64)
    ensures
        r == u64_bits_as_i64(x),
{
    if x <= 0x7fff_ffff_ffff_ffff {
        x as i64
    } else {
        i64::MIN + ((x - 0x8000_0000_0000_0000) as i64)
    }
}

fn reinterpret_i64(x: i64) -> (r: u64)
    ensures
        r == i64_bits_as_u64(x),
{
    if x >= 0 {
        x as u64
    } else {
        ((x - i64::MIN) as u64) + 0x8000_0000_0000_0000
    }
}

/// Whether the open-interest cap cuts a trade: it is not the backstop
/// liquidator's, its size reaches the largest delta allowed, and the summed
/// delta is above that largest delta.
pub open spec fn oi_cap_applies(
    size: u64,
    max_open_interest_delta: u64,
    open_interest_delta: int,
    is_backstop_liquidator: bool,
) -> bool {
    &&& !is_backstop_liquidator
    &&& size >= max_open_interest_delta
    &&& open_interest_delta > u64_bits_as_i64(max_open_interest_delta)
}

/// The size, the open-interest delta and whether the cap was reached, for a
/// trade of `size` whose sides add `taker_long_oi_delta` and
/// `maker_long_oi_delta` to the long open interest. The backstop liquidator
/// is exempt from the cap; a trade whose size stays below the largest delta
/// allowed cannot exceed it; otherwise a summed delta above the cap takes
/// the excess off the size, or the whole trade where the excess is as large
/// as the size.
pub fn get_adjusted_size_for_open_interest_cap(
    taker: [u8; 32],
    maker: [u8; 32],
    market: [u8; 32],
    is_taker_long: bool,
    size: u64,
    max_open_interest_delta: u64,
    taker_long_oi_delta: i64,
    maker_long_oi_delta: i64,
    is_backstop_liquidator: bool,
) -> (r: (u64, i64, bool))
    requires
        i64::MIN <= taker_long_oi_delta + maker_long_oi_delta <= i64::MAX,
        oi_cap_applies(
            size,
            max_open_interest_delta,
            taker_long_oi_delta + maker_long_oi_delta,
            is_backstop_liquidator,
        ) ==> i64_bits_as_u64((taker_long_oi_delta + maker_long_oi_delta) as i64)
            >= max_open_interest_delta,
    ensures
        ({
            let oi = taker_long_oi_delta + maker_long_oi_delta;
            if !oi_cap_applies(size, max_open_interest_delta, oi, is_backstop_liquidator) {
                r == (size, oi as i64, false)
            } else {
                let excess = i64_bits_as_u64(oi as i64) - max_open_interest_delta;
                if excess >= size {
                    r == (0u64, 0i64, true)
                } else {
                    r == ((size - excess) as u64, u64_bits_as_i64(max_open_interest_delta) as i64, true)
                }
            }
        }),
{
    let open_interest_delta = taker_long_oi_delta + maker_long_oi_delta;
    if is_backstop_liquidator {
        return (size, open_interest_delta, false);
    }
    if size < max_open_interest_delta {
        (size, open_interest_delta, false)
    } else {
        let max_as_i64 = reinterpret_u64(max_open_interest_delta);
        if open_interest_delta > max_as_i64 {
            let size_adjustment_needed = reinterpret_i64(open_interest_delta) - max_open_interest_delta;
            if size_adjustment_needed >= size {
                return (0, 0, true);
            }
            (size - size_adjustment_needed, max_as_i64, true)
        } else {
            (size, open_interest_delta, false)
        }
    }
}

/// The first check on a placement: a market that does not let orders in
/// refuses with "Market is halted"; every other placement passes here, the
/// backstop liquidator's without any further check.
pub fn validate_order_placement(
    market: [u8; 32],
    account: [u8; 32],
    is_long: bool,
    limit_price: u64,
    size: u64,
    is_ioc: bool,
    is_reduce_only: bool,
    can_place_order: bool,
    is_backstop_liquidator: bool,
) -> (r: Option<String>)
    ensures
        !can_place_order ==> (r matches Some(s) && s@ == "Market is halted"@),
        can_place_order ==> r is None,
{
    if !can_place_order {
        return Some("Market is halted".to_owned());
    }
    if is_backstop_liquidator {
        return None;
    }
    None
}

/// Settles a backstop liquidation or an ADL: a zero size, a zero price or a
/// trade of an account with itself is refused, in that order; otherwise the
/// whole size is filled.
pub fn settle_backstop_liquidation_or_adl(
    taker: [u8; 32],
    maker: [u8; 32],
    market: [u8; 32],
    is_taker_long: bool,
    price: u64,
    size: u64,
    is_adl: bool,
) -> (r: Result<BackstopSettlementOutput, u64>)
    ensures
        size == 0 ==> r == Err::<BackstopSettlementOutput, u64>(EINVALID_SIZE_IS_ZERO),
        size != 0 && price == 0 ==> r == Err::<BackstopSettlementOutput, u64>(
            EINVALID_PRICE_IS_ZERO,
        ),
        size != 0 && price != 0 && taker == maker ==> r == Err::<BackstopSettlementOutput, u64>(
            ESELF_TRADE_NOT_ALLOWED,
        ),
        size != 0 && price != 0 && taker != maker ==> (r matches Ok(out) && out.filled_size
            == Some(size) && out.maker_covered_loss == 0),
{
    if size == 0 {
        return Err(EINVALID_SIZE_IS_ZERO);
    }
    if price == 0 {
        return Err(EINVALID_PRICE_IS_ZERO);
    }
    if addr_eq(&taker, &maker) {
        return Err(ESELF_TRADE_NOT_ALLOWED);
    }
    Ok(BackstopSettlementOutput { filled_size: Some(size), maker_covered_loss: 0 })
}

/// Settles a trade: a trade of an account with itself, a zero size or a zero
/// price is refused, in that order; otherwise the whole size settles with no
/// cancellation on either side and matching goes on.
pub fn settle_trade(input: SettleTradeInput) -> (r: Result<SettleTradeOutput, u64>)
    ensures
        input.taker == input.maker ==> r == Err::<SettleTradeOutput, u64>(ESELF_TRADE_NOT_ALLOWED),
        input.taker != input.maker && input.size == 0 ==> r == Err::<SettleTradeOutput, u64>(
            EINVALID_SIZE_IS_ZERO,
        ),
        input.taker != input.maker && input.size != 0 && input.settled_price == 0 ==> r == Err::<
            SettleTradeOutput,
            u64,
        >(EINVALID_PRICE_IS_ZERO),
        input.taker != input.maker && input.size != 0 && input.settled_price != 0 ==> (r matches Ok(
            out,
        ) && out.settled_size == input.size && out.maker_cancellation_reason is None
            && out.taker_cancellation_reason is None && !out.should_stop_matching),
{
    if addr_eq(&input.taker, &input.maker) {
        return Err(ESELF_TRADE_NOT_ALLOWED);
    }
    if input.size == 0 {
        return Err(EINVALID_SIZE_IS_ZERO);
    }
    if input.settled_price == 0 {
        return Err(EINVALID_PRICE_IS_ZERO);
    }
    Ok(
        SettleTradeOutput {
            settled_size: input.size,
            maker_cancellation_reason: None,
            taker_cancellation_reason: None,
            should_stop_matching: false,
        },
    )
}

/// Places a maker order on the book; no callback action comes back, for the
/// backstop liquidator, an IOC order, a reduce-only or an ordinary order.
pub fn place_maker_order(
    market: [u8; 32],
    account: [u8; 32],
    order_id: u128,
    limit_price: u64,
    is_long: bool,
    size: u64,
    is_ioc: bool,
    is_reduce_only: bool,
    is_backstop_liquidator: bool,
) -> (r: Vec<CallbackAction>)
    ensures
        r@.len() == 0,
{
    if is_backstop_liquidator || is_ioc {
        return Vec::new();
    }
    if is_reduce_only {
        Vec::new()
    } else {
        Vec::new()
    }
}

/// Cleans up after a cancelled or expired order: takers, IOC orders and
/// orders with a trigger condition are skipped, and nothing else is kept
/// here to clean.
pub fn cleanup_order(
    market: [u8; 32],
    account: [u8; 32],
    order_id: u128,
    limit_price: u64,
    cleanup_size: u64,
    is_long: bool,
    is_taker: bool,
    is_ioc: bool,
    has_trigger_condition: bool,
    is_reduce_only: bool,
    is_backstop_liquidator: bool,
) {
    if is_taker || is_ioc || has_trigger_condition {
        return ;
    }
}

/// Reduces the size of an order; only a reduce-only order may be reduced.
pub fn reduce_order_size(
    market: [u8; 32],
    account: [u8; 32],
    order_id: u128,
    new_size: u64,
    is_reduce_only: bool,
) -> (r: Result<(), u64>)
    ensures
        r == (if is_reduce_only {
            Ok::<(), u64>(())
        } else {
            Err::<(), u64>(ENOT_REDUCE_ONLY)
        }),
{
    if !is_reduce_only {
        return Err(ENOT_REDUCE_ONLY);
    }
    Ok(())
}

/// Closes a position on a delisted market; it always succeeds.
pub fn close_delisted_position(address: [u8; 32], market: [u8; 32]) -> (r: Result<(), u64>)
    ensures
        r == Ok::<(), u64>(()),
{
    Ok(())
}

} // verus!
