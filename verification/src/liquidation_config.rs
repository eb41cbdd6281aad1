//! The margins and prices at which an account is liquidated, as fractions
//! of the margin needed at maximum leverage.
use vstd::prelude::*;

verus! {

#[derive(Clone, Copy, Debug)]
pub enum LiquidationConfig {
    V1 {
        backstop_liquidator: [u8; 32],
        maintenance_margin_leverage_multiplier: u64,
        maintenance_margin_leverage_divisor: u64,
        backstop_margin_maintenance_multiplier: u64,
        backstop_margin_maintenance_divisor: u64,
    },
}

/// `ceil(a / b)` computed as `(a + b - 1) / b`.
pub open spec fn ceil_ratio(a: int, b: int) -> int {
    (a + b - 1) / b
}

/// The default configuration: maintenance margin is 1/2 of the
/// maximum-leverage margin, backstop margin 1/3.
pub fn new_config(backstop_liquidator: [u8; 32]) -> (r: LiquidationConfig)
    ensures
        r == (LiquidationConfig::V1 {
            backstop_liquidator,
            maintenance_margin_leverage_multiplier: 1,
            maintenance_margin_leverage_divisor: 2,
            backstop_margin_maintenance_multiplier: 1,
            backstop_margin_maintenance_divisor: 3,
        }),
{
    LiquidationConfig::V1 {
        backstop_liquidator,
        maintenance_margin_leverage_multiplier: 1,
        maintenance_margin_leverage_divisor: 2,
        backstop_margin_maintenance_multiplier: 1,
        backstop_margin_maintenance_divisor: 3,
    }
}

fn ceil_div(a: u64, b: u64) -> (r: u64)
    requires
        b > 0,
        a + b <= u64::MAX,
    ensures
        r == ceil_ratio(a as int, b as int),
{
    (a + b - 1) / b
}

impl LiquidationConfig {
    pub open spec fn mm_mult(&self) -> u64 {
        let LiquidationConfig::V1 { maintenance_margin_leverage_multiplier: v, .. } = *self;
        v
    }

    pub open spec fn mm_div(&self) -> u64 {
        let LiquidationConfig::V1 { maintenance_margin_leverage_divisor: v, .. } = *self;
        v
    }

    pub open spec fn bm_mult(&self) -> u64 {
        let LiquidationConfig::V1 { backstop_margin_maintenance_multiplier: v, .. } = *self;
        v
    }

    pub open spec fn bm_div(&self) -> u64 {
        let LiquidationConfig::V1 { backstop_margin_maintenance_divisor: v, .. } = *self;
        v
    }

    pub open spec fn liquidator(&self) -> [u8; 32] {
        let LiquidationConfig::V1 { backstop_liquidator: v, .. } = *self;
        v
    }

    /// The margin below which an account is liquidated (by the backstop
    /// liquidator when `is_backstop`), rounded up.
    pub open spec fn liquidation_margin_spec(&self, margin: int, is_backstop: bool) -> int {
        if is_backstop {
            ceil_ratio(margin * self.bm_mult(), self.bm_div() as int)
        } else {
            ceil_ratio(margin * self.mm_mult(), self.mm_div() as int)
        }
    }

    pub fn get_liquidation_margin(&self, margin_for_max_leverage: u64, is_backstop: bool) -> (r:
        u64)
        requires
            is_backstop ==> self.bm_div() > 0 && margin_for_max_leverage * self.bm_mult()
                + self.bm_div() <= u64::MAX,
            !is_backstop ==> self.mm_div() > 0 && margin_for_max_leverage * self.mm_mult()
                + self.mm_div() <= u64::MAX,
        ensures
            r == self.liquidation_margin_spec(margin_for_max_leverage as int, is_backstop),
    {
        let LiquidationConfig::V1 {
            maintenance_margin_leverage_multiplier: mm_mult,
            maintenance_margin_leverage_divisor: mm_div,
            backstop_margin_maintenance_multiplier: bm_mult,
            backstop_margin_maintenance_divisor: bm_div,
            ..
        } = *self;
        proof {
            let m = margin_for_max_leverage as int;
            assert(m * bm_mult >= 0 && m * mm_mult >= 0) by (nonlinear_arith)
                requires
                    m >= 0,
                    bm_mult >= 0,
                    mm_mult >= 0,
            ;
        }
        if is_backstop {
            ceil_div(margin_for_max_leverage * bm_mult, bm_div)
        } else {
            ceil_div(margin_for_max_leverage * mm_mult, mm_div)
        }
    }

    /// The price move that exhausts the liquidation margin of a position at
    /// `market_max_leverage`, rounded up.
    pub open spec fn liquidation_price_spec(&self, mark_price: int, lev: int, is_backstop: bool) -> int {
        if is_backstop {
            ceil_ratio(mark_price * self.bm_mult(), lev * self.bm_div())
        } else {
            ceil_ratio(mark_price * self.mm_mult(), lev * self.mm_div())
        }
    }

    pub fn get_liquidation_price(&self, mark_price: u64, market_max_leverage: u8, is_backstop: bool) -> (r: u64)
        requires
            is_backstop ==> market_max_leverage * self.bm_div() > 0 && mark_price
                * self.bm_mult() + market_max_leverage * self.bm_div() <= u64::MAX,
            !is_backstop ==> market_max_leverage * self.mm_div() > 0 && mark_price
                * self.mm_mult() + market_max_leverage * self.mm_div() <= u64::MAX,
        ensures
            r == self.liquidation_price_spec(
                mark_price as int,
                market_max_leverage as int,
                is_backstop,
            ),
    {
        let LiquidationConfig::V1 {
            maintenance_margin_leverage_multiplier: mm_mult,
            maintenance_margin_leverage_divisor: mm_div,
            backstop_margin_maintenance_multiplier: bm_mult,
            backstop_margin_maintenance_divisor: bm_div,
            ..
        } = *self;
        proof {
            let l = market_max_leverage as int;
            assert(l * bm_div >= 0 && l * mm_div >= 0 && mark_price * bm_mult >= 0 && mark_price
                * mm_mult >= 0) by (nonlinear_arith)
                requires
                    l >= 0,
                    bm_div >= 0,
                    mm_div >= 0,
                    mark_price >= 0,
                    bm_mult >= 0,
                    mm_mult >= 0,
            ;
        }
        if is_backstop {
            ceil_div(mark_price * bm_mult, (market_max_leverage as u64) * bm_div)
        } else {
            ceil_div(mark_price * mm_mult, (market_max_leverage as u64) * mm_div)
        }
    }

    pub fn backstop_liquidator(&self) -> (r: [u8; 32])
        ensures
            r == self.liquidator(),
    {
        let LiquidationConfig::V1 { backstop_liquidator, .. } = *self;
        backstop_liquidator
    }

    pub fn maintenance_margin_leverage_multiplier(&self) -> (r: u64)
        ensures
            r == self.mm_mult(),
    {
        let LiquidationConfig::V1 { maintenance_margin_leverage_multiplier, .. } = *self;
        maintenance_margin_leverage_multiplier
    }

    pub fn maintenance_margin_leverage_divisor(&self) -> (r: u64)
        ensures
            r == self.mm_div(),
    {
        let LiquidationConfig::V1 { maintenance_margin_leverage_divisor, .. } = *self;
        maintenance_margin_leverage_divisor
    }

    pub fn backstop_margin_maintenance_multiplier(&self) -> (r: u64)
        ensures
            r == self.bm_mult(),
    {
        let LiquidationConfig::V1 { backstop_margin_maintenance_multiplier, .. } = *self;
        backstop_margin_maintenance_multiplier
    }

    pub fn backstop_margin_maintenance_divisor(&self) -> (r: u64)
        ensures
            r == self.bm_div(),
    {
        let LiquidationConfig::V1 { backstop_margin_maintenance_divisor, .. } = *self;
        backstop_margin_maintenance_divisor
    }
}

/// With the default configuration the backstop margin (1/3) never exceeds
/// the maintenance margin (1/2).
pub proof fn lemma_default_backstop_margin_below_maintenance(liquidator: [u8; 32], margin: nat)
    ensures
        ({
            let c = LiquidationConfig::V1 {
                backstop_liquidator: liquidator,
                maintenance_margin_leverage_multiplier: 1,
                maintenance_margin_leverage_divisor: 2,
                backstop_margin_maintenance_multiplier: 1,
                backstop_margin_maintenance_divisor: 3,
            };
            c.liquidation_margin_spec(margin as int, true) <= c.liquidation_margin_spec(
                margin as int,
                false,
            )
        }),
{
    let m = margin as int;
    assert((m * 1 + 3 - 1) / 3 <= (m * 1 + 2 - 1) / 2);
}

} // verus!
