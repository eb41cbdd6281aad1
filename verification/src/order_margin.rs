//! The margin checks in front of order placement: the margin left for new
//! orders, and whether a reduce-only or an ordinary order may be placed.
use vstd::prelude::*;
use crate::addr_map::{addr_eq, AddrMap};
use crate::pending_order_tracker::{
    added, empty_summary, pending_price_size_for_market_pub, placement_ok, sides_margin,
    GlobalSummary, PendingMarketState, PendingOrderSummary,
    MAX_REDUCE_ONLY_ORDERS_PER_MARKET, total_pending_margin,
};

verus! {

/// The margin left for new orders: the free cross collateral less the
/// margin that pending orders reserve (zero where they reserve all of it).
pub fn available_order_margin(global_summary: &GlobalSummary, account: [u8; 32], free_collateral_for_crossed: u64) -> (r:
    u64)
    requires
        global_summary.wf(),
        global_summary.account(account) matches Some(acc) ==> total_pending_margin(acc)
            <= u64::MAX,
    ensures
        r == ({
            let m = match global_summary.account(account) {
                Some(acc) => total_pending_margin(acc),
                None => 0,
            };
            if m >= free_collateral_for_crossed {
                0
            } else {
                free_collateral_for_crossed - m
            }
        }),
{
    let order_margin = global_summary.get_pending_order_margin(account);
    if order_margin >= free_collateral_for_crossed {
        0
    } else {
        free_collateral_for_crossed - order_margin
    }
}

/// Why a reduce-only order may not be placed, if it may not: there is no
/// position, the order is not against the position, or the market already
/// holds the most reduce-only orders allowed.
pub fn validate_reduce_only_order(
    global_summary: &GlobalSummary,
    account: [u8; 32],
    market: [u8; 32],
    is_long: bool,
    position_size: u64,
    position_is_long: bool,
) -> (r: Option<String>)
    requires
        global_summary.wf(),
    ensures
        position_size == 0 ==> (r matches Some(s) && s@
            == "Cannot place reduce only order with no position"@),
        position_size != 0 && is_long == position_is_long ==> (r matches Some(s) && s@
            == "Reduce only order direction must be opposite to position direction"@),
        position_size != 0 && is_long != position_is_long ==> (match global_summary.market_state(
            account,
            market,
        ) {
            Some(st) => if st.reduce_only_orders.orders@.len() >= MAX_REDUCE_ONLY_ORDERS_PER_MARKET {
                r matches Some(s) && s@
                    == "Maximum allowed number of reduce only orders exceeded for market"@
            } else {
                r is None
            },
            None => r is None,
        }),
{
    if position_size == 0 {
        return Some("Cannot place reduce only order with no position".to_owned());
    }
    if is_long == position_is_long {
        return Some("Reduce only order direction must be opposite to position direction".to_owned());
    }
    match global_summary.account_summary(account) {
        Some(acc) => match acc.markets.get(&market) {
            Some(st) => {
                if st.reduce_only_orders.orders.len() >= (MAX_REDUCE_ONLY_ORDERS_PER_MARKET as usize) {
                    return Some(
                        "Maximum allowed number of reduce only orders exceeded for market".to_owned(),
                    );
                }
                None
            },
            None => None,
        },
        None => None,
    }
}

/// The sum of the margins of the first `n` markets other than `market`.
pub open spec fn other_margin_sum(markets: AddrMap<PendingMarketState>, market: [u8; 32], n: nat) -> int
    decreases n,
{
    if n == 0 {
        0
    } else {
        other_margin_sum(markets, market, (n - 1) as nat) + if markets.key_at_spec(n - 1) == market {
            0
        } else {
            markets.view()[markets.key_at_spec(n - 1)].pending_margin as int
        }
    }
}

proof fn lemma_other_margin_sum_monotone(markets: AddrMap<PendingMarketState>, market: [u8; 32], i: nat, n: nat)
    requires
        i <= n,
    ensures
        0 <= other_margin_sum(markets, market, i) <= other_margin_sum(markets, market, n),
    decreases n,
{
    if n > 0 {
        if i < n {
            lemma_other_margin_sum_monotone(markets, market, i, (n - 1) as nat);
        } else {
            lemma_other_margin_sum_monotone(markets, market, (n - 1) as nat, (n - 1) as nat);
        }
    }
}

/// The sides of the account in the market (empty where it has none).
pub open spec fn sides_of(g: GlobalSummary, account: [u8; 32], market: [u8; 32]) -> (
    PendingOrderSummary,
    PendingOrderSummary,
    PendingOrderSummary,
    PendingOrderSummary,
) {
    match g.market_state(account, market) {
        Some(st) => (
            st.pending_single_longs,
            st.pending_single_shorts,
            st.pending_bulk_longs,
            st.pending_bulk_shorts,
        ),
        None => (empty_summary(), empty_summary(), empty_summary(), empty_summary()),
    }
}

/// The margin that the account's other markets reserve.
pub open spec fn others_margin(g: GlobalSummary, account: [u8; 32], market: [u8; 32]) -> int {
    match g.account(account) {
        Some(acc) => other_margin_sum(acc.markets, market, acc.markets.len_spec()),
        None => 0,
    }
}

/// The margin that the market would reserve with the new order in it.
pub open spec fn margin_with_order(
    g: GlobalSummary,
    account: [u8; 32],
    market: [u8; 32],
    order_size: u64,
    limit_price: u64,
    is_long: bool,
    position_size: u64,
    position_is_long: bool,
    user_leverage: u8,
    size_multiplier: u64,
) -> u64 {
    let s = sides_of(g, account, market);
    sides_margin(
        position_size,
        position_is_long,
        if is_long {
            added(s.0, order_size, limit_price)
        } else {
            s.0
        },
        if is_long {
            s.1
        } else {
            added(s.1, order_size, limit_price)
        },
        s.2,
        s.3,
        user_leverage,
        size_multiplier,
    )
}

/// Whether an ordinary order can be placed: the margin that the account's
/// other markets reserve plus what this market would reserve with the order
/// in it does not exceed the margin available.
pub fn validate_non_reduce_only_order_placement(
    global_summary: &GlobalSummary,
    account: [u8; 32],
    market: [u8; 32],
    order_size: u64,
    limit_price: u64,
    is_long: bool,
    position_size: u64,
    position_is_long: bool,
    user_leverage: u8,
    available_margin: u64,
    size_multiplier: u64,
) -> (r: bool)
    requires
        global_summary.wf(),
        placement_ok(
            sides_of(*global_summary, account, market).0,
            sides_of(*global_summary, account, market).1,
            sides_of(*global_summary, account, market).2,
            sides_of(*global_summary, account, market).3,
            order_size,
            limit_price,
            is_long,
            position_size,
            position_is_long,
            user_leverage,
            size_multiplier,
        ),
        others_margin(*global_summary, account, market) + margin_with_order(
            *global_summary,
            account,
            market,
            order_size,
            limit_price,
            is_long,
            position_size,
            position_is_long,
            user_leverage,
            size_multiplier,
        ) <= u64::MAX,
    ensures
        r == (others_margin(*global_summary, account, market) + margin_with_order(
            *global_summary,
            account,
            market,
            order_size,
            limit_price,
            is_long,
            position_size,
            position_is_long,
            user_leverage,
            size_multiplier,
        ) <= available_margin),
{
    let acc_opt = global_summary.account_summary(account);
    let (mut eff_longs, mut eff_shorts, bulk_longs, bulk_shorts) = match acc_opt {
        Some(acc) => match acc.markets.get(&market) {
            Some(st) => (
                st.pending_single_longs,
                st.pending_single_shorts,
                st.pending_bulk_longs,
                st.pending_bulk_shorts,
            ),
            None => {
                let empty = PendingOrderSummary::V1 { price_size_sum: 0, size_sum: 0 };
                (empty, empty, empty, empty)
            },
        },
        None => {
            let empty = PendingOrderSummary::V1 { price_size_sum: 0, size_sum: 0 };
            (empty, empty, empty, empty)
        },
    };
    proof {
        assert(sides_of(*global_summary, account, market) == (eff_longs, eff_shorts, bulk_longs, bulk_shorts));
        assert(order_size * limit_price <= u64::MAX * u64::MAX) by (nonlinear_arith)
            requires
                order_size <= u64::MAX,
                limit_price <= u64::MAX,
        ;
    }
    if is_long {
        let PendingOrderSummary::V1 { price_size_sum, size_sum } = eff_longs;
        eff_longs = PendingOrderSummary::V1 {
            price_size_sum: price_size_sum + (order_size as u128) * (limit_price as u128),
            size_sum: size_sum + order_size,
        };
    } else {
        let PendingOrderSummary::V1 { price_size_sum, size_sum } = eff_shorts;
        eff_shorts = PendingOrderSummary::V1 {
            price_size_sum: price_size_sum + (order_size as u128) * (limit_price as u128),
            size_sum: size_sum + order_size,
        };
    }
    let required_margin_for_market = pending_price_size_for_market_pub(
        position_size,
        position_is_long,
        &eff_longs,
        &eff_shorts,
        &bulk_longs,
        &bulk_shorts,
        user_leverage,
        size_multiplier,
    );
    let mut total_required_margin: u64 = 0;
    match acc_opt {
        Some(acc) => {
            let n = acc.markets.len();
            let mut i: usize = 0;
            while i < n
                invariant
                    acc.wf(),
                    n == acc.markets.len_spec(),
                    i <= n,
                    total_required_margin == other_margin_sum(acc.markets, market, i as nat),
                    other_margin_sum(acc.markets, market, n as nat) + required_margin_for_market
                        <= u64::MAX,
                decreases n - i,
            {
                proof {
                    lemma_other_margin_sum_monotone(acc.markets, market, (i + 1) as nat, n as nat);
                }
                let k = acc.markets.key_at(i);
                if !addr_eq(&k, &market) {
                    let st = acc.markets.value_at(i);
                    total_required_margin = total_required_margin + st.pending_margin;
                }
                i += 1;
            }
        },
        None => {},
    }
    total_required_margin = total_required_margin + required_margin_for_market;
    total_required_margin <= available_margin
}

} // verus!
