//! How the fees of a trade are split: what the position pays or receives,
//! what the treasury gains or pays, and what goes to a builder or referrer;
//! and how much of the treasury's gain goes to the backstop vault.
use vstd::prelude::*;
use crate::addr_map::addr_eq;
use crate::i64_math::trunc_div;

verus! {

pub const EINVALID_AMOUNT: u64 = 1;

pub const EINVALID_ADDRESS: u64 = 2;

pub const EINVALID_FEE_DISTRIBUTION: u64 = 3;

pub const ESYSTEM_FEE_DRAIN: u64 = 4;

#[derive(Clone, Copy, Debug)]
pub enum FeeWithDestination {
    V1 { address: [u8; 32], fees: u64 },
}

/// The fees of one side of a trade. The balance is named by its 32-byte
/// identifier.
#[allow(non_camel_case_types)]
#[derive(Clone, Copy, Debug)]
pub enum FeeDistribution {
    RegularTrade_V1 {
        balance_type: [u8; 32],
        position_fee_delta: i64,
        treasury_fee_delta: i64,
        builder_or_referrer_fees: Option<FeeWithDestination>,
    },
    MarginCall_V1 { balance_type: [u8; 32], position_fee_delta: i64 },
}

/// The fees that go to a builder or referrer (none without one).
pub open spec fn misc_fees(brf: Option<FeeWithDestination>) -> u64 {
    match brf {
        Some(f) => f->fees,
        None => 0,
    }
}

/// A regular trade's distribution: the treasury's delta is what goes to the
/// builder or referrer less what the position pays.
pub fn new_fee_distribution(
    balance_type: [u8; 32],
    position_fee_delta: i64,
    builder_or_referrer_fees: Option<FeeWithDestination>,
) -> (r: FeeDistribution)
    requires
        i64::MIN <= (misc_fees(builder_or_referrer_fees) as i64) - position_fee_delta <= i64::MAX,
    ensures
        r == (FeeDistribution::RegularTrade_V1 {
            balance_type,
            position_fee_delta,
            treasury_fee_delta: ((misc_fees(builder_or_referrer_fees) as i64) - position_fee_delta)
                as i64,
            builder_or_referrer_fees,
        }),
{
    let misc: u64 = match builder_or_referrer_fees {
        Some(FeeWithDestination::V1 { fees, .. }) => fees,
        None => 0,
    };
    let treasury_fee_delta = (#[verifier::truncate] (misc as i64)) - position_fee_delta;
    FeeDistribution::RegularTrade_V1 {
        balance_type,
        position_fee_delta,
        treasury_fee_delta,
        builder_or_referrer_fees,
    }
}

/// A margin call's distribution: the position pays the given fee.
pub fn new_margin_call_fee_distribution(balance_type: [u8; 32], position_fee_delta: u64) -> (r:
    FeeDistribution)
    ensures
        r == (FeeDistribution::MarginCall_V1 {
            balance_type,
            position_fee_delta: position_fee_delta as i64,
        }),
{
    FeeDistribution::MarginCall_V1 {
        balance_type,
        position_fee_delta: #[verifier::truncate] (position_fee_delta as i64),
    }
}

pub fn new_fee_with_destination(address: [u8; 32], fees: u64) -> (r: FeeWithDestination)
    ensures
        r == (FeeWithDestination::V1 { address, fees }),
{
    FeeWithDestination::V1 { address, fees }
}

/// A regular distribution with no fees.
pub fn zero_fees(balance_type: [u8; 32]) -> (r: FeeDistribution)
    ensures
        r == (FeeDistribution::RegularTrade_V1 {
            balance_type,
            position_fee_delta: 0,
            treasury_fee_delta: 0,
            builder_or_referrer_fees: None,
        }),
{
    FeeDistribution::RegularTrade_V1 {
        balance_type,
        position_fee_delta: 0,
        treasury_fee_delta: 0,
        builder_or_referrer_fees: None,
    }
}

pub fn is_margin_call_fee_distribution(fee_dist: &FeeDistribution) -> (r: bool)
    ensures
        r == (*fee_dist is MarginCall_V1),
{
    match fee_dist {
        FeeDistribution::MarginCall_V1 { .. } => true,
        _ => false,
    }
}

/// Whether two distributions can be added: both regular, of one balance,
/// both with or both without a builder or referrer, the same one.
pub open spec fn can_add(a: FeeDistribution, b: FeeDistribution) -> bool {
    match (a, b) {
        (
            FeeDistribution::RegularTrade_V1 {
                balance_type: bt1,
                builder_or_referrer_fees: f1,
                ..
            },
            FeeDistribution::RegularTrade_V1 {
                balance_type: bt2,
                builder_or_referrer_fees: f2,
                ..
            },
        ) => bt1 == bt2 && (f1 is None) == (f2 is None) && (f1 matches Some(x) ==> (f2 matches Some(
            y,
        ) && x->address == y->address)),
        _ => false,
    }
}

/// The error for two distributions that cannot be added.
pub open spec fn add_error(a: FeeDistribution, b: FeeDistribution) -> u64 {
    match (a, b) {
        (
            FeeDistribution::RegularTrade_V1 {
                balance_type: bt1,
                builder_or_referrer_fees: f1,
                ..
            },
            FeeDistribution::RegularTrade_V1 {
                balance_type: bt2,
                builder_or_referrer_fees: f2,
                ..
            },
        ) => if bt1 != bt2 || (f1 is None) != (f2 is None) {
            EINVALID_FEE_DISTRIBUTION
        } else {
            EINVALID_ADDRESS
        },
        _ => EINVALID_FEE_DISTRIBUTION,
    }
}

/// The sum of two distributions that can be added.
pub open spec fn sum_spec(a: FeeDistribution, b: FeeDistribution) -> FeeDistribution {
    FeeDistribution::RegularTrade_V1 {
        balance_type: a->RegularTrade_V1_balance_type,
        position_fee_delta: (a->RegularTrade_V1_position_fee_delta
            + b->RegularTrade_V1_position_fee_delta) as i64,
        treasury_fee_delta: (a->RegularTrade_V1_treasury_fee_delta
            + b->RegularTrade_V1_treasury_fee_delta) as i64,
        builder_or_referrer_fees: match (
            a->RegularTrade_V1_builder_or_referrer_fees,
            b->RegularTrade_V1_builder_or_referrer_fees,
        ) {
            (Some(x), Some(y)) => Some(
                FeeWithDestination::V1 { address: x->address, fees: (x->fees + y->fees) as u64 },
            ),
            _ => None,
        },
    }
}

/// Whether the sum of two addable distributions does not overflow.
pub open spec fn sum_ok(a: FeeDistribution, b: FeeDistribution) -> bool {
    &&& i64::MIN <= a->RegularTrade_V1_position_fee_delta + b->RegularTrade_V1_position_fee_delta
        <= i64::MAX
    &&& i64::MIN <= a->RegularTrade_V1_treasury_fee_delta + b->RegularTrade_V1_treasury_fee_delta
        <= i64::MAX
    &&& misc_fees(a->RegularTrade_V1_builder_or_referrer_fees) + misc_fees(
        b->RegularTrade_V1_builder_or_referrer_fees,
    ) <= u64::MAX
}

/// The sum of two regular distributions of one balance and one builder or
/// referrer.
pub fn add(a: &FeeDistribution, b: &FeeDistribution) -> (r: Result<FeeDistribution, u64>)
    requires
        can_add(*a, *b) ==> sum_ok(*a, *b),
    ensures
        can_add(*a, *b) ==> r == Ok::<FeeDistribution, u64>(sum_spec(*a, *b)),
        !can_add(*a, *b) ==> r == Err::<FeeDistribution, u64>(add_error(*a, *b)),
{
    match (a, b) {
        (
            FeeDistribution::RegularTrade_V1 {
                balance_type,
                position_fee_delta,
                treasury_fee_delta,
                builder_or_referrer_fees,
            },
            FeeDistribution::RegularTrade_V1 {
                balance_type: other_bt,
                position_fee_delta: other_pfd,
                treasury_fee_delta: other_tfd,
                builder_or_referrer_fees: other_brf,
            },
        ) => {
            if !addr_eq(balance_type, other_bt) {
                return Err(EINVALID_FEE_DISTRIBUTION);
            }
            if builder_or_referrer_fees.is_none() != other_brf.is_none() {
                return Err(EINVALID_FEE_DISTRIBUTION);
            }
            match (builder_or_referrer_fees, other_brf) {
                (
                    Some(FeeWithDestination::V1 { address: a_addr, .. }),
                    Some(FeeWithDestination::V1 { address: b_addr, .. }),
                ) => {
                    if !addr_eq(a_addr, b_addr) {
                        return Err(EINVALID_ADDRESS);
                    }
                },
                _ => {},
            }
            let new_brf = match (builder_or_referrer_fees, other_brf) {
                (
                    Some(FeeWithDestination::V1 { address, fees }),
                    Some(FeeWithDestination::V1 { fees: other_fees, .. }),
                ) => Some(FeeWithDestination::V1 { address: *address, fees: *fees + *other_fees }),
                _ => None,
            };
            Ok(
                FeeDistribution::RegularTrade_V1 {
                    balance_type: *balance_type,
                    position_fee_delta: *position_fee_delta + *other_pfd,
                    treasury_fee_delta: *treasury_fee_delta + *other_tfd,
                    builder_or_referrer_fees: new_brf,
                },
            )
        },
        _ => Err(EINVALID_FEE_DISTRIBUTION),
    }
}

pub fn get_position_fee_delta(fee_dist: &FeeDistribution) -> (r: i64)
    ensures
        r == (match *fee_dist {
            FeeDistribution::RegularTrade_V1 { position_fee_delta, .. } => position_fee_delta,
            FeeDistribution::MarginCall_V1 { position_fee_delta, .. } => position_fee_delta,
        }),
{
    match fee_dist {
        FeeDistribution::RegularTrade_V1 { position_fee_delta, .. } => *position_fee_delta,
        FeeDistribution::MarginCall_V1 { position_fee_delta, .. } => *position_fee_delta,
    }
}

/// The treasury's delta (none for a margin call).
pub open spec fn system_fee_delta(fee_dist: FeeDistribution) -> i64 {
    match fee_dist {
        FeeDistribution::RegularTrade_V1 { treasury_fee_delta, .. } => treasury_fee_delta,
        FeeDistribution::MarginCall_V1 { .. } => 0,
    }
}

pub fn get_system_fee_delta(fee_dist: &FeeDistribution) -> (r: i64)
    ensures
        r == system_fee_delta(*fee_dist),
{
    match fee_dist {
        FeeDistribution::RegularTrade_V1 { treasury_fee_delta, .. } => *treasury_fee_delta,
        FeeDistribution::MarginCall_V1 { .. } => 0,
    }
}

pub fn get_builder_or_referrer_fees(fee_dist: &FeeDistribution) -> (r: Option<FeeWithDestination>)
    ensures
        r == (match *fee_dist {
            FeeDistribution::RegularTrade_V1 { builder_or_referrer_fees, .. } =>
                builder_or_referrer_fees,
            FeeDistribution::MarginCall_V1 { .. } => None,
        }),
{
    match fee_dist {
        FeeDistribution::RegularTrade_V1 { builder_or_referrer_fees, .. } => *builder_or_referrer_fees,
        FeeDistribution::MarginCall_V1 { .. } => None,
    }
}

pub fn get_balance_type(fee_dist: &FeeDistribution) -> (r: [u8; 32])
    ensures
        r == (match *fee_dist {
            FeeDistribution::RegularTrade_V1 { balance_type, .. } => balance_type,
            FeeDistribution::MarginCall_V1 { balance_type, .. } => balance_type,
        }),
{
    match fee_dist {
        FeeDistribution::RegularTrade_V1 { balance_type, .. } => *balance_type,
        FeeDistribution::MarginCall_V1 { balance_type, .. } => *balance_type,
    }
}

/// Checks one position's distribution: a rebate to the position must not
/// leave the treasury paying; a margin call is refused.
pub fn distribute_fees_for_position(fee_dist: &FeeDistribution) -> (r: Result<(), u64>)
    ensures
        r == (match *fee_dist {
            FeeDistribution::RegularTrade_V1 { position_fee_delta, treasury_fee_delta, .. } => if position_fee_delta < 0 && treasury_fee_delta < 0 {
                Err(EINVALID_AMOUNT)
            } else {
                Ok(())
            },
            _ => Err(EINVALID_FEE_DISTRIBUTION),
        }),
{
    match fee_dist {
        FeeDistribution::RegularTrade_V1 { position_fee_delta, treasury_fee_delta, .. } => {
            if *position_fee_delta == 0 {
                return Ok(());
            }
            if *position_fee_delta > 0 {
                Ok(())
            } else {
                if *treasury_fee_delta < 0 {
                    return Err(EINVALID_AMOUNT);
                }
                Ok(())
            }
        },
        _ => Err(EINVALID_FEE_DISTRIBUTION),
    }
}

/// The share of the fees that goes to the backstop vault.
#[derive(Clone, Copy, Debug)]
pub struct DistributionResult {
    pub backstop_final: u64,
}

/// The backstop share of a regular trade: the vault's percentage of the
/// treasury's combined gain (nothing where there is none).
pub open spec fn standard_backstop(taker_tfd: int, maker_tfd: int, pct: u64) -> u64 {
    let gain = -(maker_tfd + taker_tfd);
    let vault_fee = trunc_div(gain * (pct as i64), 100);
    if vault_fee > 0 {
        vault_fee as u64
    } else {
        0
    }
}

fn distribute_fees_for_standard(
    taker_fee: &FeeDistribution,
    maker_fee: &FeeDistribution,
    standard_vault_pct: u64,
) -> (r: Result<DistributionResult, u64>)
    requires
        i64::MIN < system_fee_delta(*maker_fee) + system_fee_delta(*taker_fee) <= i64::MAX,
        i64::MIN <= -(system_fee_delta(*maker_fee) + system_fee_delta(*taker_fee)) * (
        standard_vault_pct as i64) <= i64::MAX,
    ensures
        system_fee_delta(*maker_fee) + system_fee_delta(*taker_fee) > 0 ==> r == Err::<
            DistributionResult,
            u64,
        >(ESYSTEM_FEE_DRAIN),
        system_fee_delta(*maker_fee) + system_fee_delta(*taker_fee) <= 0 ==> (r matches Ok(d)
            && d.backstop_final == standard_backstop(
            system_fee_delta(*taker_fee) as int,
            system_fee_delta(*maker_fee) as int,
            standard_vault_pct,
        )),
{
    let taker_tfd = get_system_fee_delta(taker_fee);
    let maker_tfd = get_system_fee_delta(maker_fee);
    if maker_tfd + taker_tfd > 0 {
        return Err(ESYSTEM_FEE_DRAIN);
    }
    let treasury_gain = -(maker_tfd + taker_tfd);
    let pct: i64 = #[verifier::truncate] (standard_vault_pct as i64);
    let product = treasury_gain * pct;
    let vault_fee = product / 100;
    let backstop_final = if vault_fee > 0 {
        vault_fee as u64
    } else {
        0
    };
    Ok(DistributionResult { backstop_final })
}

/// What one side gives the treasury, and the backstop's share of it: for a
/// margin call, the position's fee (which must not be negative) and its
/// margin-call percentage; else the treasury's gain and the standard
/// percentage of it.
pub open spec fn side_to_treasury(fee: FeeDistribution, margin_call_pct: u64, standard_pct: u64) -> (
    int,
    int,
) {
    match fee {
        FeeDistribution::MarginCall_V1 { position_fee_delta, .. } => (
            position_fee_delta as int,
            ((position_fee_delta as u64) * margin_call_pct / 100) as int,
        ),
        FeeDistribution::RegularTrade_V1 { treasury_fee_delta, .. } => {
            let gain = -treasury_fee_delta;
            (gain, if gain > 0 {
                (gain as u64) * standard_pct / 100
            } else {
                0
            })
        },
    }
}

/// Whether computing a side's share does not overflow.
pub open spec fn side_ok(fee: FeeDistribution, margin_call_pct: u64, standard_pct: u64) -> bool {
    match fee {
        FeeDistribution::MarginCall_V1 { position_fee_delta, .. } => position_fee_delta >= 0 ==> (
        position_fee_delta as u64) * margin_call_pct <= u64::MAX,
        FeeDistribution::RegularTrade_V1 { treasury_fee_delta, .. } => treasury_fee_delta
            != i64::MIN && (-treasury_fee_delta > 0 ==> (-treasury_fee_delta) * standard_pct
            <= u64::MAX),
    }
}

fn distribute_side_to_treasury(fee: &FeeDistribution, margin_call_vault_pct: u64, standard_vault_pct: u64) -> (r:
    Result<(i64, u64), u64>)
    requires
        side_ok(*fee, margin_call_vault_pct, standard_vault_pct),
    ensures
        (*fee is MarginCall_V1 && fee->MarginCall_V1_position_fee_delta < 0) ==> r == Err::<
            (i64, u64),
            u64,
        >(EINVALID_AMOUNT),
        !(*fee is MarginCall_V1 && fee->MarginCall_V1_position_fee_delta < 0) ==> (r matches Ok(
            p,
        ) && p.0 == side_to_treasury(*fee, margin_call_vault_pct, standard_vault_pct).0 && p.1
            == side_to_treasury(*fee, margin_call_vault_pct, standard_vault_pct).1),
{
    if is_margin_call_fee_distribution(fee) {
        let pfd = get_position_fee_delta(fee);
        if pfd < 0 {
            return Err(EINVALID_AMOUNT);
        }
        let fees = pfd as u64;
        Ok((fees as i64, fees * margin_call_vault_pct / 100))
    } else {
        let gain = -get_system_fee_delta(fee);
        let backstop = if gain > 0 {
            (gain as u64) * standard_vault_pct / 100
        } else {
            0
        };
        Ok((gain, backstop))
    }
}

/// The backstop share of a trade with a margin call on either side: the
/// sum of both sides' shares, capped to the treasury's combined gain
/// (nothing where there is none).
pub open spec fn margin_call_backstop(taker: FeeDistribution, maker: FeeDistribution, pct: u64) -> u64 {
    let t = side_to_treasury(taker, 0, pct);
    let m = side_to_treasury(maker, 0, pct);
    let total = t.1 + m.1;
    let gain = t.0 + m.0;
    if gain <= 0 {
        0
    } else if gain < total {
        gain as u64
    } else {
        total as u64
    }
}

fn distribute_fees_for_margin_call(
    taker_fee: &FeeDistribution,
    maker_fee: &FeeDistribution,
    standard_vault_pct: u64,
) -> (r: Result<DistributionResult, u64>)
    requires
        side_ok(*taker_fee, 0, standard_vault_pct),
        side_ok(*maker_fee, 0, standard_vault_pct),
        side_to_treasury(*taker_fee, 0, standard_vault_pct).1 + side_to_treasury(
            *maker_fee,
            0,
            standard_vault_pct,
        ).1 <= u64::MAX,
        i64::MIN <= side_to_treasury(*taker_fee, 0, standard_vault_pct).0 + side_to_treasury(
            *maker_fee,
            0,
            standard_vault_pct,
        ).0 <= i64::MAX,
    ensures
        (*taker_fee is MarginCall_V1 && taker_fee->MarginCall_V1_position_fee_delta < 0) || (
        *maker_fee is MarginCall_V1 && maker_fee->MarginCall_V1_position_fee_delta < 0) ==> r
            == Err::<DistributionResult, u64>(EINVALID_AMOUNT),
        !((*taker_fee is MarginCall_V1 && taker_fee->MarginCall_V1_position_fee_delta < 0) || (
        *maker_fee is MarginCall_V1 && maker_fee->MarginCall_V1_position_fee_delta < 0)) ==> (
        r matches Ok(d) && d.backstop_final == margin_call_backstop(
            *taker_fee,
            *maker_fee,
            standard_vault_pct,
        )),
{
    let (taker_gain, taker_bs) = match distribute_side_to_treasury(taker_fee, 0, standard_vault_pct) {
        Ok(p) => p,
        Err(e) => {
            return Err(e);
        },
    };
    let (maker_gain, maker_bs) = match distribute_side_to_treasury(maker_fee, 0, standard_vault_pct) {
        Ok(p) => p,
        Err(e) => {
            return Err(e);
        },
    };
    let total_backstop = taker_bs + maker_bs;
    let treasury_gain = taker_gain + maker_gain;
    let backstop_final = if treasury_gain <= 0 {
        0
    } else if (treasury_gain as u64) < total_backstop {
        treasury_gain as u64
    } else {
        total_backstop
    };
    Ok(DistributionResult { backstop_final })
}

/// The backstop vault's share of a trade's fees: by the margin-call rule
/// where either side is a margin call, else by the standard rule.
pub fn distribute_fees(
    taker_fee: &FeeDistribution,
    maker_fee: &FeeDistribution,
    _backstop_vault_addr: [u8; 32],
    standard_vault_pct: u64,
    _market: [u8; 32],
) -> (r: Result<DistributionResult, u64>)
    requires
        (*taker_fee is MarginCall_V1 || *maker_fee is MarginCall_V1) ==> {
            &&& side_ok(*taker_fee, 0, standard_vault_pct)
            &&& side_ok(*maker_fee, 0, standard_vault_pct)
            &&& side_to_treasury(*taker_fee, 0, standard_vault_pct).1 + side_to_treasury(
                *maker_fee,
                0,
                standard_vault_pct,
            ).1 <= u64::MAX
            &&& i64::MIN <= side_to_treasury(*taker_fee, 0, standard_vault_pct).0
                + side_to_treasury(*maker_fee, 0, standard_vault_pct).0 <= i64::MAX
        },
        !(*taker_fee is MarginCall_V1 || *maker_fee is MarginCall_V1) ==> {
            &&& i64::MIN < system_fee_delta(*maker_fee) + system_fee_delta(*taker_fee) <= i64::MAX
            &&& i64::MIN <= -(system_fee_delta(*maker_fee) + system_fee_delta(*taker_fee)) * (
            standard_vault_pct as i64) <= i64::MAX
        },
    ensures
        (*taker_fee is MarginCall_V1 || *maker_fee is MarginCall_V1) ==> {
            &&& (*taker_fee is MarginCall_V1 && taker_fee->MarginCall_V1_position_fee_delta < 0)
                || (*maker_fee is MarginCall_V1 && maker_fee->MarginCall_V1_position_fee_delta < 0)
                ==> r == Err::<DistributionResult, u64>(EINVALID_AMOUNT)
            &&& !((*taker_fee is MarginCall_V1 && taker_fee->MarginCall_V1_position_fee_delta < 0)
                || (*maker_fee is MarginCall_V1 && maker_fee->MarginCall_V1_position_fee_delta
                < 0)) ==> (r matches Ok(d) && d.backstop_final == margin_call_backstop(
                *taker_fee,
                *maker_fee,
                standard_vault_pct,
            ))
        },
        !(*taker_fee is MarginCall_V1 || *maker_fee is MarginCall_V1) ==> {
            &&& system_fee_delta(*maker_fee) + system_fee_delta(*taker_fee) > 0 ==> r == Err::<
                DistributionResult,
                u64,
            >(ESYSTEM_FEE_DRAIN)
            &&& system_fee_delta(*maker_fee) + system_fee_delta(*taker_fee) <= 0 ==> (r matches Ok(
                d,
            ) && d.backstop_final == standard_backstop(
                system_fee_delta(*taker_fee) as int,
                system_fee_delta(*maker_fee) as int,
                standard_vault_pct,
            ))
        },
{
    if is_margin_call_fee_distribution(taker_fee) || is_margin_call_fee_distribution(maker_fee) {
        distribute_fees_for_margin_call(taker_fee, maker_fee, standard_vault_pct)
    } else {
        distribute_fees_for_standard(taker_fee, maker_fee, standard_vault_pct)
    }
}

/// A regular distribution is balanced when the treasury's delta is what goes
/// to the builder or referrer less what the position pays.
pub open spec fn balanced(d: FeeDistribution) -> bool {
    d matches FeeDistribution::RegularTrade_V1 {
        position_fee_delta,
        treasury_fee_delta,
        builder_or_referrer_fees,
        ..
    } && treasury_fee_delta == misc_fees(builder_or_referrer_fees) - position_fee_delta
}

/// A new distribution is balanced (where the builder's fee reads as itself
/// when signed), and the sum of two balanced distributions is balanced.
pub proof fn lemma_balanced_preserved(
    balance_type: [u8; 32],
    position_fee_delta: i64,
    brf: Option<FeeWithDestination>,
    a: FeeDistribution,
    b: FeeDistribution,
)
    requires
        misc_fees(brf) <= i64::MAX,
        i64::MIN <= misc_fees(brf) - position_fee_delta <= i64::MAX,
        balanced(a),
        balanced(b),
        can_add(a, b),
        sum_ok(a, b),
    ensures
        balanced(
            FeeDistribution::RegularTrade_V1 {
                balance_type,
                position_fee_delta,
                treasury_fee_delta: ((misc_fees(brf) as i64) - position_fee_delta) as i64,
                builder_or_referrer_fees: brf,
            },
        ),
        balanced(sum_spec(a, b)),
{
}

} // verus!
