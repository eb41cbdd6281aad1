//! Liquidation outcomes and the arithmetic of liquidation sizing and
//! auto-deleveraging prices.
use vstd::prelude::*;
use crate::i64_math::trunc_div;

verus! {

#[derive(Clone, Copy, Debug, PartialEq, Eq, Structural)]
pub enum MarginCallResult {
    Solvent,
    RequiresBackstopLiquidation,
    Reprocess,
    Continuation,
}

#[derive(Clone, Copy, Debug, PartialEq, Eq, Structural)]
pub enum MarginCallResultDetail {
    NoDetail,
    PositionNotFound,
    FeeExceedsHealthRatio,
    LiquidationPriceZero,
    EffectiveSlippageExceedsMMRRatio,
}

#[derive(Clone, Copy, Debug, PartialEq, Eq, Structural)]
pub enum MarginCallContinuation {
    V1 { slippage_to_test: u64 },
}

pub fn is_requires_backstop_liquidation(result: &MarginCallResult) -> (r: bool)
    ensures
        r == (*result == MarginCallResult::RequiresBackstopLiquidation),
{
    match result {
        MarginCallResult::RequiresBackstopLiquidation => true,
        _ => false,
    }
}

pub fn is_continuation(result: &MarginCallResult) -> (r: bool)
    ensures
        r == (*result == MarginCallResult::Continuation),
{
    match result {
        MarginCallResult::Continuation => true,
        _ => false,
    }
}

pub fn is_reprocess(result: &MarginCallResult) -> (r: bool)
    ensures
        r == (*result == MarginCallResult::Reprocess),
{
    match result {
        MarginCallResult::Reprocess => true,
        _ => false,
    }
}

pub fn is_solvent(result: &MarginCallResult) -> (r: bool)
    ensures
        r == (*result == MarginCallResult::Solvent),
{
    match result {
        MarginCallResult::Solvent => true,
        _ => false,
    }
}

pub fn get_slippage_to_test(cont: &MarginCallContinuation) -> (r: u64)
    ensures
        r == cont->slippage_to_test,
{
    let MarginCallContinuation::V1 { slippage_to_test } = cont;
    *slippage_to_test
}

pub fn default_margin_call_continuation(starting_slippage_pct: u64) -> (r: MarginCallContinuation)
    ensures
        r == (MarginCallContinuation::V1 { slippage_to_test: starting_slippage_pct }),
{
    MarginCallContinuation::V1 { slippage_to_test: starting_slippage_pct }
}

/// The shortfall below the maintenance margin, plus one.
pub open spec fn deficit_spec(account_equity: i64, maintenance_margin_required: u64) -> int {
    maintenance_margin_required - ((account_equity as u64) as int) + 1
}

/// The liquidation size before rounding to lots: the quotient rounded up,
/// and at least `min_size`.
pub open spec fn units_before_lot_rounding(
    deficit: int,
    inv_leverage_w_mmr_buffer: u64,
    effective_slippage: u64,
    mark_price: u64,
    size_mult: u64,
    scale: u64,
    min_size: u64,
) -> int {
    let numerator = deficit * size_mult * scale;
    let denominator = mark_price * (inv_leverage_w_mmr_buffer - effective_slippage);
    let u0 = (numerator + denominator - 1) / denominator;
    if u0 <= min_size {
        min_size as int
    } else {
        u0
    }
}

/// The smallest number of units `u` whose liquidation restores the margin
/// requirement: `ceil(deficit * size_mult * scale / (mark_price *
/// (inv_leverage - slippage)))`, at least `min_size`, rounded up to a
/// multiple of `lot_size`, and at most the position.
pub open spec fn min_liquidation_units_spec(
    position_size: u64,
    deficit: int,
    inv_leverage_w_mmr_buffer: u64,
    effective_slippage: u64,
    mark_price: u64,
    size_mult: u64,
    scale: u64,
    min_size: u64,
    lot_size: u64,
) -> int {
    let denominator = mark_price * (inv_leverage_w_mmr_buffer - effective_slippage);
    if denominator == 0 {
        position_size as int
    } else {
        let u1 = units_before_lot_rounding(
            deficit,
            inv_leverage_w_mmr_buffer,
            effective_slippage,
            mark_price,
            size_mult,
            scale,
            min_size,
        );
        let u2 = if u1 % (lot_size as int) != 0 {
            u1 + lot_size - u1 % (lot_size as int)
        } else {
            u1
        };
        if u2 > position_size {
            position_size as int
        } else {
            u2
        }
    }
}

pub fn min_liquidation_units(
    position_size: u64,
    account_equity: i64,
    maintenance_margin_required: u64,
    inv_leverage_w_mmr_buffer: u64,
    effective_slippage: u64,
    mark_price: u64,
    size_mult: u64,
    scale: u64,
    min_size: u64,
    lot_size: u64,
) -> (r: u64)
    requires
        1 <= deficit_spec(account_equity, maintenance_margin_required) <= u64::MAX,
        deficit_spec(account_equity, maintenance_margin_required) * size_mult * scale
            <= u128::MAX,
        effective_slippage <= inv_leverage_w_mmr_buffer,
        lot_size > 0,
        deficit_spec(account_equity, maintenance_margin_required) * size_mult * scale + mark_price
            * (inv_leverage_w_mmr_buffer - effective_slippage) <= u128::MAX,
        mark_price * (inv_leverage_w_mmr_buffer - effective_slippage) != 0 ==> units_before_lot_rounding(
            deficit_spec(account_equity, maintenance_margin_required),
            inv_leverage_w_mmr_buffer,
            effective_slippage,
            mark_price,
            size_mult,
            scale,
            min_size,
        ) + lot_size <= u128::MAX,
    ensures
        r == min_liquidation_units_spec(
            position_size,
            deficit_spec(account_equity, maintenance_margin_required),
            inv_leverage_w_mmr_buffer,
            effective_slippage,
            mark_price,
            size_mult,
            scale,
            min_size,
            lot_size,
        ),
{
    let deficit: u64 = maintenance_margin_required - (#[verifier::truncate] (account_equity as u64)) + 1;
    proof {
        let d = deficit as int;
        assert(d * size_mult >= 0 && d * size_mult * scale >= 0) by (nonlinear_arith)
            requires
                d >= 0,
                size_mult >= 0,
                scale >= 0,
        ;
        assert(d * size_mult <= d * size_mult * scale || scale == 0) by (nonlinear_arith)
            requires
                d * size_mult >= 0,
                scale >= 0,
        ;
        assert(d * size_mult <= u128::MAX) by (nonlinear_arith)
            requires
                d <= u64::MAX,
                size_mult <= u64::MAX,
                d >= 0,
                size_mult >= 0,
        ;
        let w = (inv_leverage_w_mmr_buffer - effective_slippage) as int;
        assert(mark_price * w >= 0 && mark_price * w <= u128::MAX) by (nonlinear_arith)
            requires
                0 <= w <= u64::MAX,
                0 <= mark_price <= u64::MAX,
        ;
    }
    let numerator: u128 = (deficit as u128) * (size_mult as u128) * (scale as u128);
    let denominator: u128 = (mark_price as u128) * ((inv_leverage_w_mmr_buffer as u128) - (
    effective_slippage as u128));
    if denominator == 0 {
        return position_size;
    }
    let mut u_star = (numerator + denominator - 1) / denominator;
    if u_star <= (min_size as u128) {
        u_star = min_size as u128;
    }
    let ghost u1 = u_star;
    proof {
        assert((numerator + denominator - 1) / (denominator as int) <= numerator + denominator - 1) by {
            vstd::arithmetic::div_mod::lemma_div_is_ordered_by_denominator(
                (numerator + denominator - 1) as int,
                1,
                denominator as int,
            );
        }
    }
    if u_star % (lot_size as u128) != 0 {
        proof {
            assert((u_star as int) % (lot_size as int) < lot_size);
        }
        u_star = u_star + (lot_size as u128) - (u_star % (lot_size as u128));
    }
    if u_star > (position_size as u128) {
        position_size
    } else {
        u_star as u64
    }
}

/// The auto-deleveraging price of a position, when its losses since the
/// profit watermark reach `threshold`: the price at which the position's
/// loss equals the threshold, clamped to at least 1, and no better for the
/// counterparty than the mark price.
pub open spec fn adl_price_spec(
    mark_price: u64,
    threshold: u64,
    realized_pnl: i64,
    realized_pnl_watermark: i64,
    entry_px_times_size_sum: u128,
    liquidation_size: u64,
    is_long: bool,
    size_multiplier: u64,
) -> Option<u64> {
    if threshold == 0 || liquidation_size == 0 {
        None
    } else {
        let exit_px_times_size = (mark_price * liquidation_size) as u128;
        let pnl_magnitude = ((exit_px_times_size as i128) as int) - ((
        entry_px_times_size_sum as i128) as int);
        let pnl_amount = (trunc_div(pnl_magnitude, size_multiplier as int) as i64) as int;
        let unrealized_pnl = if is_long {
            pnl_amount
        } else {
            -pnl_amount
        };
        let realized_pnl_delta = realized_pnl - realized_pnl_watermark;
        let total = realized_pnl_delta + unrealized_pnl;
        if total > 0 || ((-total) as u64) < threshold {
            None
        } else {
            let is_short: int = if is_long {
                -1
            } else {
                1
            };
            let bankruptcy_price_times_sz = ((realized_pnl_delta + ((threshold as i64) as int))
                * is_short) * size_multiplier + ((entry_px_times_size_sum as i128) as int);
            let bankruptcy_price = (trunc_div(bankruptcy_price_times_sz, liquidation_size as int)
                as i64) as int;
            let capped = (if bankruptcy_price > 1 {
                bankruptcy_price
            } else {
                1
            }) as u64;
            let raw = if is_long {
                if mark_price > capped {
                    mark_price
                } else {
                    capped
                }
            } else {
                if mark_price < capped {
                    mark_price
                } else {
                    capped
                }
            };
            Some(
                if raw == 0 {
                    1
                } else {
                    raw
                },
            )
        }
    }
}

/// The profit or loss of a position, in collateral units, were it closed at
/// the mark price: the exit notional less the entry notional, divided by the
/// size multiplier (rounded toward zero), and negated for a short.
pub open spec fn unrealized_pnl_at_mark(
    mark_price: u64,
    entry_px_times_size_sum: u128,
    liquidation_size: u64,
    is_long: bool,
    size_multiplier: u64,
) -> int {
    let u = trunc_div(mark_price * liquidation_size - entry_px_times_size_sum, size_multiplier as int);
    if is_long {
        u
    } else {
        -u
    }
}

/// Auto-deleveraging triggers exactly when the position's loss since the
/// watermark, realized and unrealized together, reaches the threshold; the
/// price it triggers at is at least 1.
pub proof fn lemma_adl_triggers_on_total_loss(
    mark_price: u64,
    threshold: u64,
    realized_pnl: i64,
    realized_pnl_watermark: i64,
    entry_px_times_size_sum: u128,
    liquidation_size: u64,
    is_long: bool,
    size_multiplier: u64,
)
    requires
        threshold > 0,
        liquidation_size > 0,
        adl_inputs_in_range(
            mark_price,
            threshold,
            realized_pnl,
            realized_pnl_watermark,
            entry_px_times_size_sum,
            liquidation_size,
            is_long,
            size_multiplier,
        ),
        mark_price * liquidation_size <= i128::MAX,
        entry_px_times_size_sum <= i128::MAX,
        i64::MIN < trunc_div(
            mark_price * liquidation_size - entry_px_times_size_sum,
            size_multiplier as int,
        ) <= i64::MAX,
    ensures
        adl_price_spec(
            mark_price,
            threshold,
            realized_pnl,
            realized_pnl_watermark,
            entry_px_times_size_sum,
            liquidation_size,
            is_long,
            size_multiplier,
        ) is Some <==> (realized_pnl - realized_pnl_watermark) + unrealized_pnl_at_mark(
            mark_price,
            entry_px_times_size_sum,
            liquidation_size,
            is_long,
            size_multiplier,
        ) <= -(threshold as int),
        adl_price_spec(
            mark_price,
            threshold,
            realized_pnl,
            realized_pnl_watermark,
            entry_px_times_size_sum,
            liquidation_size,
            is_long,
            size_multiplier,
        ) matches Some(p) ==> p >= 1,
{
    let prod = mark_price * liquidation_size;
    assert(prod <= u128::MAX);
    assert((prod as u128) as int == prod);
    assert(((prod as u128) as i128) as int == prod);
    assert((entry_px_times_size_sum as i128) as int == entry_px_times_size_sum);
}

/// The bankruptcy price of a position for auto-deleveraging: the price at
/// which its loss since the watermark reaches the threshold, that is the
/// entry notional moved against the position by the realized loss since the
/// watermark plus the threshold (in notional units), over the size, rounded
/// toward zero.
pub open spec fn adl_bankruptcy_price(
    threshold: u64,
    realized_pnl: i64,
    realized_pnl_watermark: i64,
    entry_px_times_size_sum: u128,
    liquidation_size: u64,
    is_long: bool,
    size_multiplier: u64,
) -> int {
    let budget = (realized_pnl - realized_pnl_watermark + threshold) * size_multiplier;
    trunc_div(
        entry_px_times_size_sum + (if is_long {
            -budget
        } else {
            budget
        }),
        liquidation_size as int,
    )
}

/// The price auto-deleveraging triggers at is, for a long, the higher of the
/// mark price and the bankruptcy price, and for a short the lower of the
/// two; in either case at least 1.
pub proof fn lemma_adl_price_against_mark(
    mark_price: u64,
    threshold: u64,
    realized_pnl: i64,
    realized_pnl_watermark: i64,
    entry_px_times_size_sum: u128,
    liquidation_size: u64,
    is_long: bool,
    size_multiplier: u64,
)
    requires
        liquidation_size > 0,
        adl_inputs_in_range(
            mark_price,
            threshold,
            realized_pnl,
            realized_pnl_watermark,
            entry_px_times_size_sum,
            liquidation_size,
            is_long,
            size_multiplier,
        ),
        entry_px_times_size_sum <= i128::MAX,
        threshold <= i64::MAX,
        i64::MIN <= adl_bankruptcy_price(
            threshold,
            realized_pnl,
            realized_pnl_watermark,
            entry_px_times_size_sum,
            liquidation_size,
            is_long,
            size_multiplier,
        ) <= i64::MAX,
    ensures
        adl_price_spec(
            mark_price,
            threshold,
            realized_pnl,
            realized_pnl_watermark,
            entry_px_times_size_sum,
            liquidation_size,
            is_long,
            size_multiplier,
        ) matches Some(p) ==> {
            let bp = adl_bankruptcy_price(
                threshold,
                realized_pnl,
                realized_pnl_watermark,
                entry_px_times_size_sum,
                liquidation_size,
                is_long,
                size_multiplier,
            );
            let side_price = if is_long {
                if mark_price >= bp {
                    mark_price as int
                } else {
                    bp
                }
            } else {
                if mark_price <= bp {
                    mark_price as int
                } else {
                    bp
                }
            };
            p == (if side_price < 1 {
                1
            } else {
                side_price
            })
        },
{
    let delta = realized_pnl - realized_pnl_watermark;
    let x = delta + threshold;
    assert((threshold as i64) as int == threshold);
    assert((entry_px_times_size_sum as i128) as int == entry_px_times_size_sum);
    assert((x * -1) * size_multiplier == -(x * size_multiplier)) by (nonlinear_arith);
    assert((x * 1) * size_multiplier == x * size_multiplier) by (nonlinear_arith);
}

/// The arithmetic of `should_trigger_adl_price` stays within the machine
/// integers.
pub open spec fn adl_inputs_in_range(
    mark_price: u64,
    threshold: u64,
    realized_pnl: i64,
    realized_pnl_watermark: i64,
    entry_px_times_size_sum: u128,
    liquidation_size: u64,
    is_long: bool,
    size_multiplier: u64,
) -> bool {
    let exit_px_times_size = (mark_price * liquidation_size) as u128;
    let pnl_magnitude = ((exit_px_times_size as i128) as int) - ((entry_px_times_size_sum as i128)
        as int);
    let pnl_amount = (trunc_div(pnl_magnitude, size_multiplier as int) as i64) as int;
    let realized_pnl_delta = realized_pnl - realized_pnl_watermark;
    let unrealized_pnl = if is_long {
        pnl_amount
    } else {
        -pnl_amount
    };
    let total = realized_pnl_delta + unrealized_pnl;
    &&& size_multiplier > 0
    &&& i128::MIN <= pnl_magnitude <= i128::MAX
    &&& pnl_amount != i64::MIN
    &&& i64::MIN <= realized_pnl_delta <= i64::MAX
    &&& i64::MIN < total <= i64::MAX
    &&& i64::MIN <= realized_pnl_delta + ((threshold as i64) as int) <= i64::MAX
    &&& i128::MIN <= (realized_pnl_delta + ((threshold as i64) as int)) * size_multiplier
        <= i128::MAX
    &&& i128::MIN <= (realized_pnl_delta + ((threshold as i64) as int)) * size_multiplier
        + ((entry_px_times_size_sum as i128) as int) <= i128::MAX
    &&& i128::MIN <= -((realized_pnl_delta + ((threshold as i64) as int)) * size_multiplier)
        + ((entry_px_times_size_sum as i128) as int) <= i128::MAX
}

pub fn should_trigger_adl_price(
    mark_price: u64,
    threshold: u64,
    realized_pnl: i64,
    realized_pnl_watermark: i64,
    entry_px_times_size_sum: u128,
    liquidation_size: u64,
    is_long: bool,
    size_multiplier: u64,
) -> (r: Option<u64>)
    requires
        threshold == 0 || liquidation_size == 0 || adl_inputs_in_range(
            mark_price,
            threshold,
            realized_pnl,
            realized_pnl_watermark,
            entry_px_times_size_sum,
            liquidation_size,
            is_long,
            size_multiplier,
        ),
    ensures
        r == adl_price_spec(
            mark_price,
            threshold,
            realized_pnl,
            realized_pnl_watermark,
            entry_px_times_size_sum,
            liquidation_size,
            is_long,
            size_multiplier,
        ),
        (threshold > 0 && liquidation_size > 0 && mark_price * liquidation_size <= i128::MAX
            && entry_px_times_size_sum <= i128::MAX && i64::MIN < trunc_div(
            mark_price * liquidation_size - entry_px_times_size_sum,
            size_multiplier as int,
        ) <= i64::MAX) ==> (r is Some <==> (realized_pnl - realized_pnl_watermark)
            + unrealized_pnl_at_mark(
            mark_price,
            entry_px_times_size_sum,
            liquidation_size,
            is_long,
            size_multiplier,
        ) <= -(threshold as int)),
        r matches Some(p) ==> p >= 1,
        (liquidation_size > 0 && entry_px_times_size_sum <= i128::MAX && threshold <= i64::MAX
            && i64::MIN <= adl_bankruptcy_price(
            threshold,
            realized_pnl,
            realized_pnl_watermark,
            entry_px_times_size_sum,
            liquidation_size,
            is_long,
            size_multiplier,
        ) <= i64::MAX) ==> (r matches Some(p) ==> {
            let bp = adl_bankruptcy_price(
                threshold,
                realized_pnl,
                realized_pnl_watermark,
                entry_px_times_size_sum,
                liquidation_size,
                is_long,
                size_multiplier,
            );
            let side_price = if is_long {
                if mark_price >= bp {
                    mark_price as int
                } else {
                    bp
                }
            } else {
                if mark_price <= bp {
                    mark_price as int
                } else {
                    bp
                }
            };
            p == (if side_price < 1 {
                1
            } else {
                side_price
            })
        }),
{
    proof {
        if threshold > 0 && liquidation_size > 0 && mark_price * liquidation_size <= i128::MAX
            && entry_px_times_size_sum <= i128::MAX && i64::MIN < trunc_div(
            mark_price * liquidation_size - entry_px_times_size_sum,
            size_multiplier as int,
        ) <= i64::MAX {
            lemma_adl_triggers_on_total_loss(
                mark_price,
                threshold,
                realized_pnl,
                realized_pnl_watermark,
                entry_px_times_size_sum,
                liquidation_size,
                is_long,
                size_multiplier,
            );
        }
    }
    if threshold == 0 || liquidation_size == 0 {
        return None;
    }
    assert(mark_price * liquidation_size <= u128::MAX) by (nonlinear_arith)
        requires
            mark_price <= u64::MAX,
            liquidation_size <= u64::MAX,
            mark_price >= 0,
            liquidation_size >= 0,
    ;
    let exit_px_times_size = (mark_price as u128) * (liquidation_size as u128);
    proof {
        assert(mark_price * liquidation_size <= 0xffff_ffff_ffff_fffe_0000_0000_0000_0001int)
            by (nonlinear_arith)
            requires
                mark_price <= 0xffff_ffff_ffff_ffffint,
                liquidation_size <= 0xffff_ffff_ffff_ffffint,
                mark_price >= 0,
                liquidation_size >= 0,
        ;
        assert(exit_px_times_size == mark_price * liquidation_size);
    }
    let pnl_magnitude = (#[verifier::truncate] (exit_px_times_size as i128)) - (#[verifier::truncate] (
    entry_px_times_size_sum as i128));
    let pnl_amount = #[verifier::truncate] ((pnl_magnitude / (size_multiplier as i128)) as i64);
    let unrealized_pnl = if is_long {
        pnl_amount
    } else {
        -pnl_amount
    };
    let realized_pnl_delta = realized_pnl - realized_pnl_watermark;
    let total_pnl_from_watermark = realized_pnl_delta + unrealized_pnl;
    if total_pnl_from_watermark > 0 || ((-total_pnl_from_watermark) as u64) < threshold {
        return None;
    }
    let is_short: i128 = if is_long {
        -1
    } else {
        1
    };
    let base = (realized_pnl_delta + (#[verifier::truncate] (threshold as i64))) as i128;
    proof {
        let b = base as int;
        let m = size_multiplier as int;
        assert(i64::MIN <= b <= i64::MAX);
        assert(-0x8000_0000_0000_0000_0000_0000_0000_0000int < b * m
            < 0x8000_0000_0000_0000_0000_0000_0000_0000int) by (nonlinear_arith)
            requires
                i64::MIN <= b <= i64::MAX,
                0 <= m <= u64::MAX,
        ;
        if is_long {
            assert((b * -1) * m == -(b * m)) by (nonlinear_arith);
        } else {
            assert((b * 1) * m == b * m) by (nonlinear_arith);
        }
        assert(i128::MIN <= (b * (is_short as int)) * m <= i128::MAX);
    }
    let bankruptcy_price_times_sz = base * is_short * (size_multiplier as i128) + (
    #[verifier::truncate] (entry_px_times_size_sum as i128));
    let bankruptcy_price = #[verifier::truncate] ((bankruptcy_price_times_sz / (
    liquidation_size as i128)) as i64);
    let capped_bankruptcy_price = (if bankruptcy_price > 1 {
        bankruptcy_price
    } else {
        1
    }) as u64;
    let raw_adl_price = if is_long {
        if mark_price > capped_bankruptcy_price {
            mark_price
        } else {
            capped_bankruptcy_price
        }
    } else {
        if mark_price < capped_bankruptcy_price {
            mark_price
        } else {
            capped_bankruptcy_price
        }
    };
    let adl_price = if raw_adl_price == 0 {
        1
    } else {
        raw_adl_price
    };
    proof {
        if threshold > 0 && liquidation_size > 0 && entry_px_times_size_sum <= i128::MAX
            && threshold <= i64::MAX && i64::MIN <= adl_bankruptcy_price(
            threshold,
            realized_pnl,
            realized_pnl_watermark,
            entry_px_times_size_sum,
            liquidation_size,
            is_long,
            size_multiplier,
        ) <= i64::MAX {
            lemma_adl_price_against_mark(
                mark_price,
                threshold,
                realized_pnl,
                realized_pnl_watermark,
                entry_px_times_size_sum,
                liquidation_size,
                is_long,
                size_multiplier,
            );
        }
    }
    Some(adl_price)
}


/// Whether every node of `a` from `start` on, up to `end`, is no larger
/// than its children up to `end` (the children of `i` are `2i+1`, `2i+2`).
pub open spec fn min_heap_from(a: Seq<(usize, i64)>, start: int, end: int) -> bool {
    forall|i: int, c: int|
        #![trigger a[i], a[c]]
        start <= i && c <= end && (c == 2 * i + 1 || c == 2 * i + 2) ==> a[i].1 <= a[c].1
}

/// Whether the profits of `a` fall (or stay) from `lo` up to `hi`.
pub open spec fn descending_between(a: Seq<(usize, i64)>, lo: int, hi: int) -> bool {
    forall|i: int, j: int| lo <= i < j < hi ==> #[trigger] a[i].1 >= #[trigger] a[j].1
}

/// Whether `x` stands somewhere in `s` from `lo` to `hi`.
pub open spec fn in_region(s: Seq<(usize, i64)>, lo: int, hi: int, x: (usize, i64)) -> bool {
    exists|j: int| lo <= j <= hi && s[j] == x
}

proof fn lemma_heap_root_is_min(a: Seq<(usize, i64)>, end: int, k: int)
    requires
        min_heap_from(a, 0, end),
        0 <= k <= end,
        end < a.len(),
    ensures
        a[0].1 <= a[k].1,
    decreases k,
{
    if k > 0 {
        let p = (k - 1) / 2;
        assert(k == 2 * p + 1 || k == 2 * p + 2);
        lemma_heap_root_is_min(a, end, p);
        assert(a[p].1 <= a[k].1);
    }
}

fn swap_entries(arr: &mut Vec<(usize, i64)>, i: usize, j: usize)
    requires
        i < old(arr)@.len(),
        j < old(arr)@.len(),
    ensures
        final(arr)@ == old(arr)@.update(i as int, old(arr)@[j as int]).update(j as int, old(arr)@[i as int]),
        final(arr)@.to_multiset() == old(arr)@.to_multiset(),
{
    let a = arr[i];
    let b = arr[j];
    let ghost s = arr@;
    arr.set(i, b);
    arr.set(j, a);
    proof {
        broadcast use vstd::seq_lib::to_multiset_update;
        broadcast use vstd::seq_lib::to_multiset_contains;
        broadcast use vstd::multiset::group_multiset_axioms;

        let s1 = s.update(i as int, b);
        if i == j {
            assert(s1.update(j as int, a) =~= s);
        } else {
            assert(s.contains(a));
            assert(s.to_multiset().count(a) > 0);
            assert(s1.to_multiset() == s.to_multiset().insert(b).remove(a));
            assert(s1[j as int] == b);
            assert(s1.update(j as int, a).to_multiset() == s1.to_multiset().insert(a).remove(b));
            assert(s1.update(j as int, a).to_multiset() =~= s.to_multiset());
        }
    }
}

fn sift_down_min(arr: &mut Vec<(usize, i64)>, start: usize, end: usize)
    requires
        start <= end < old(arr)@.len(),
        old(arr)@.len() < usize::MAX / 4,
        min_heap_from(old(arr)@, start + 1, end as int),
    ensures
        final(arr)@.len() == old(arr)@.len(),
        final(arr)@.to_multiset() == old(arr)@.to_multiset(),
        min_heap_from(final(arr)@, start as int, end as int),
        forall|k: int| 0 <= k < old(arr)@.len() && (k < start || k > end) ==> #[trigger] final(arr)@[k]
            == old(arr)@[k],
        forall|k: int| start <= k <= end ==> #[trigger] in_region(old(arr)@, start as int, end as int, final(arr)@[k]),
{
    let ghost s0 = arr@;
    assert forall|k: int| start <= k <= end implies #[trigger] in_region(s0, start as int, end as int, arr@[k]) by {
        assert(s0[k] == arr@[k]);
    }
    let mut root = start;
    loop
        invariant_except_break
            start <= root <= end < arr@.len(),
            arr@.len() == s0.len(),
            arr@.len() < usize::MAX / 4,
            arr@.to_multiset() == s0.to_multiset(),
            forall|k: int| 0 <= k < s0.len() && (k < start || k > end) ==> #[trigger] arr@[k] == s0[k],
            forall|i: int, c: int|
                #![trigger arr@[i], arr@[c]]
                start <= i && i != root && c <= end && (c == 2 * i + 1 || c == 2 * i + 2) ==> arr@[i].1
                    <= arr@[c].1,
            root > start ==> forall|c: int|
                #![trigger arr@[c]]
                c <= end && (c == 2 * root + 1 || c == 2 * root + 2) ==> arr@[(root - 1) / 2].1
                    <= arr@[c].1,
            root > start ==> (root - 1) / 2 >= start,
            forall|k: int| start <= k <= end ==> #[trigger] in_region(s0, start as int, end as int, arr@[k]),
        ensures
            forall|k: int| start <= k <= end ==> #[trigger] in_region(s0, start as int, end as int, arr@[k]),
            arr@.len() == s0.len(),
            arr@.to_multiset() == s0.to_multiset(),
            forall|k: int| 0 <= k < s0.len() && (k < start || k > end) ==> #[trigger] arr@[k] == s0[k],
            min_heap_from(arr@, start as int, end as int),
        decreases end - root,
    {
        let mut child = 2 * root + 1;
        if child > end {
            break;
        }
        if child + 1 <= end && arr[child + 1].1 < arr[child].1 {
            child = child + 1;
        }
        if arr[root].1 <= arr[child].1 {
            break;
        }
        let ghost before = arr@;
        swap_entries(arr, root, child);
        proof {
            let r = root as int;
            let ch = child as int;
            assert(arr@[r] == before[ch]);
            assert(arr@[ch] == before[r]);
            assert forall|i: int, c: int|
                #![trigger arr@[i], arr@[c]]
                start <= i && i != ch && c <= end && (c == 2 * i + 1 || c == 2 * i + 2) implies arr@[i].1
                <= arr@[c].1 by {
                if i == r {
                } else if c == r {
                    assert(i == (r - 1) / 2);
                    assert(before[i].1 <= before[ch].1);
                } else if c == ch {
                    assert(before[i].1 <= before[c].1);
                } else {
                    assert(before[i].1 <= before[c].1);
                }
            }
            assert forall|k: int| start <= k <= end implies #[trigger] in_region(s0, start as int, end as int, arr@[k]) by {
                if k == r {
                    assert(in_region(s0, start as int, end as int, before[ch]));
                } else if k == ch {
                    assert(in_region(s0, start as int, end as int, before[r]));
                } else {
                    assert(in_region(s0, start as int, end as int, before[k]));
                }
            }
            assert forall|c: int|
                #![trigger arr@[c]]
                c <= end && (c == 2 * ch + 1 || c == 2 * ch + 2) implies arr@[(ch - 1) / 2].1 <= arr@[c].1 by {
                assert((ch - 1) / 2 == r);
                assert(before[ch].1 <= before[c].1);
            }
        }
        root = child;
    }
}

/// Sorts positions by unrealized profit, most profitable first, in place.
pub fn heapsort_descending_by_upnl(upnls: &mut Vec<(usize, i64)>)
    requires
        old(upnls)@.len() < usize::MAX / 4,
    ensures
        final(upnls)@.len() == old(upnls)@.len(),
        final(upnls)@.to_multiset() == old(upnls)@.to_multiset(),
        descending_between(final(upnls)@, 0, final(upnls)@.len() as int),
{
    let n = upnls.len();
    if n <= 1 {
        return;
    }
    let ghost s0 = upnls@;
    let mut start = n / 2;
    while start > 0
        invariant
            n == upnls@.len(),
            1 < n < usize::MAX / 4,
            start <= n / 2,
            upnls@.to_multiset() == s0.to_multiset(),
            min_heap_from(upnls@, start as int, n - 1),
        decreases start,
    {
        start -= 1;
        sift_down_min(upnls, start, n - 1);
    }
    let mut end = n - 1;
    while end > 0
        invariant
            n == upnls@.len(),
            1 < n < usize::MAX / 4,
            end < n,
            upnls@.to_multiset() == s0.to_multiset(),
            min_heap_from(upnls@, 0, end as int),
            descending_between(upnls@, end + 1, n as int),
            forall|i: int, j: int| 0 <= i <= end < j < n ==> #[trigger] upnls@[i].1 >= #[trigger] upnls@[j].1,
        decreases end,
    {
        let ghost before = upnls@;
        proof {
            assert forall|k: int| 0 <= k <= end implies before[0].1 <= #[trigger] before[k].1 by {
                lemma_heap_root_is_min(before, end as int, k);
            }
        }
        swap_entries(upnls, 0, end);
        end -= 1;
        proof {
            let e = end as int;
            assert forall|i: int, c: int|
                #![trigger upnls@[i], upnls@[c]]
                1 <= i && c <= e && (c == 2 * i + 1 || c == 2 * i + 2) implies upnls@[i].1 <= upnls@[c].1 by {
                assert(upnls@[i] == before[i]);
                assert(upnls@[c] == before[c]);
            }
            assert forall|i: int, j: int| e + 1 <= i < j < n implies #[trigger] upnls@[i].1 >= #[trigger] upnls@[j].1 by {
                if i == e + 1 {
                    assert(upnls@[i] == before[0]);
                    assert(upnls@[j] == before[j]);
                } else {
                    assert(upnls@[i] == before[i]);
                    assert(upnls@[j] == before[j]);
                }
            }
            assert forall|i: int, j: int| 0 <= i <= e < j < n implies #[trigger] upnls@[i].1 >= #[trigger] upnls@[j].1 by {
                if j == e + 1 {
                    if i == 0 {
                        assert(upnls@[i] == before[e + 1]);
                    } else {
                        assert(upnls@[i] == before[i]);
                    }
                    assert(upnls@[j] == before[0]);
                    assert(before[0].1 <= before[i].1);
                } else {
                    if i == 0 {
                        assert(upnls@[i] == before[e + 1]);
                        assert(before[e + 1].1 >= before[j].1);
                    } else {
                        assert(upnls@[i] == before[i]);
                    }
                    assert(upnls@[j] == before[j]);
                }
            }
        }
        let ghost mid = upnls@;
        sift_down_min(upnls, 0, end);
        proof {
            let e = end as int;
            assert forall|i: int, j: int| 0 <= i <= e < j < n implies #[trigger] upnls@[i].1 >= #[trigger] upnls@[j].1 by {
                assert(in_region(mid, 0, e, upnls@[i]));
                let w = choose|w: int| 0 <= w <= e && mid[w] == upnls@[i];
                assert(mid[w].1 >= mid[j].1);
                assert(upnls@[j] == mid[j]);
            }
        }
    }
}

} // verus!
