//! Oracle sources (internal, Pyth, Chainlink, or a primary backed by an
//! internal secondary), the status they report, and the rule that marks a
//! composite oracle invalid after too many consecutive deviations.
use vstd::prelude::*;
use crate::internal_oracle_state::InternalSourceIdentifier;
use crate::math::{self, Precision, pow10};

verus! {

pub const ENOT_INTERNAL_ORACLE: u64 = 1;

pub const EINVALID_ORACLE_TYPE: u64 = 2;

pub const ORACLE_TYPE_SINGLE_INTERNAL: u8 = 0;

pub const ORACLE_TYPE_SINGLE_PYTH: u8 = 1;

pub const ORACLE_TYPE_SINGLE_CHAINLINK: u8 = 2;

pub const ORACLE_TYPE_COMPOSITE_PYTH_INTERNAL: u8 = 3;

pub const ORACLE_TYPE_COMPOSITE_CHAINLINK_INTERNAL: u8 = 4;

#[derive(Clone, Copy, Debug)]
pub enum PythSource {
    V1 {
        price_identifier: [u8; 32],
        max_staleness_secs: u64,
        confidence_interval_threshold: u64,
        rescale_decimals: i8,
    },
}

#[derive(Clone, Debug)]
pub enum ChainlinkSource {
    V1 { feed_id: Vec<u8>, max_staleness_secs: u64, rescale_decimals: i8 },
}

#[derive(Clone, Copy, Debug)]
pub enum InternalSource {
    V1 { source_id: InternalSourceIdentifier, max_staleness_secs: u64 },
}

#[derive(Clone, Debug)]
pub enum SingleOracleSource {
    Internal(InternalSource),
    Pyth(PythSource),
    Chainlink(ChainlinkSource),
}

#[derive(Clone, Debug)]
pub enum OracleSource {
    Single { primary: SingleOracleSource },
    Composite {
        primary: SingleOracleSource,
        secondary: SingleOracleSource,
        oracles_deviation_bps: u64,
        consecutive_deviation_count: u8,
        last_primary_price: u64,
        current_deviation_count: u8,
    },
}

#[derive(Clone, Copy, Debug, PartialEq, Eq, Structural)]
pub enum OracleStatus {
    Okay,
    Invalid,
    Down,
}

#[derive(Clone, Copy, Debug, PartialEq, Eq, Structural)]
pub enum OracleData {
    V1 { price: u64, status: OracleStatus },
}

/// The prices read from the primary and secondary feeds, and whether each
/// feed is healthy.
#[derive(Clone, Copy, Debug)]
pub struct OraclePriceInput {
    pub primary_price: u64,
    pub primary_healthy: bool,
    pub secondary_price: u64,
    pub secondary_healthy: bool,
}

pub fn new_internal_source(source_id: InternalSourceIdentifier, max_staleness_secs: u64) -> (r:
    SingleOracleSource)
    ensures
        r matches SingleOracleSource::Internal(InternalSource::V1 { source_id: s, max_staleness_secs: m })
            && s == source_id && m == max_staleness_secs,
{
    SingleOracleSource::Internal(InternalSource::V1 { source_id, max_staleness_secs })
}

pub fn new_pyth_source(
    identifier_bytes: [u8; 32],
    max_staleness_secs: u64,
    confidence_interval_threshold: u64,
    rescale_decimals: i8,
) -> (r: SingleOracleSource)
    ensures
        r matches SingleOracleSource::Pyth(
            PythSource::V1 { price_identifier: p, max_staleness_secs: m, confidence_interval_threshold: c, rescale_decimals: d },
        ) && p == identifier_bytes && m == max_staleness_secs && c == confidence_interval_threshold
            && d == rescale_decimals,
{
    SingleOracleSource::Pyth(
        PythSource::V1 {
            price_identifier: identifier_bytes,
            max_staleness_secs,
            confidence_interval_threshold,
            rescale_decimals,
        },
    )
}

pub fn new_chainlink_source(feed_id: Vec<u8>, max_staleness_secs: u64, rescale_decimals: i8) -> (r:
    SingleOracleSource)
    ensures
        r matches SingleOracleSource::Chainlink(ChainlinkSource::V1 { feed_id: f, max_staleness_secs: m, rescale_decimals: d })
            && f@ == feed_id@ && m == max_staleness_secs && d == rescale_decimals,
{
    SingleOracleSource::Chainlink(ChainlinkSource::V1 { feed_id, max_staleness_secs, rescale_decimals })
}

pub fn new_single_oracle(oracle_source: SingleOracleSource) -> (r: OracleSource)
    ensures
        r == (OracleSource::Single { primary: oracle_source }),
{
    OracleSource::Single { primary: oracle_source }
}

/// The numbered kind of an oracle configuration, when it is one of the five
/// supported ones.
pub open spec fn oracle_type_spec(s: OracleSource) -> Option<u8> {
    match s {
        OracleSource::Single { primary } => match primary {
            SingleOracleSource::Internal(_) => Some(ORACLE_TYPE_SINGLE_INTERNAL),
            SingleOracleSource::Pyth(_) => Some(ORACLE_TYPE_SINGLE_PYTH),
            SingleOracleSource::Chainlink(_) => Some(ORACLE_TYPE_SINGLE_CHAINLINK),
        },
        OracleSource::Composite { primary, secondary, .. } => match (primary, secondary) {
            (SingleOracleSource::Pyth(_), SingleOracleSource::Internal(_)) => Some(
                ORACLE_TYPE_COMPOSITE_PYTH_INTERNAL,
            ),
            (SingleOracleSource::Chainlink(_), SingleOracleSource::Internal(_)) => Some(
                ORACLE_TYPE_COMPOSITE_CHAINLINK_INTERNAL,
            ),
            _ => None,
        },
    }
}

/// A composite oracle: an external primary backed by an internal secondary.
pub fn new_composite_oracle(
    primary: SingleOracleSource,
    secondary: SingleOracleSource,
    oracles_deviation_bps: u64,
    consecutive_deviation_count: u8,
) -> (r: Result<OracleSource, u64>)
    ensures
        ({
            let s = OracleSource::Composite {
                primary,
                secondary,
                oracles_deviation_bps,
                consecutive_deviation_count,
                last_primary_price: 0,
                current_deviation_count: 0,
            };
            if oracle_type_spec(s) is Some {
                r == Ok::<OracleSource, u64>(s)
            } else {
                r == Err::<OracleSource, u64>(EINVALID_ORACLE_TYPE)
            }
        }),
{
    let oracle_source = OracleSource::Composite {
        primary,
        secondary,
        oracles_deviation_bps,
        consecutive_deviation_count,
        last_primary_price: 0,
        current_deviation_count: 0,
    };
    let oracle_type = get_oracle_type(&oracle_source)?;
    if oracle_type != ORACLE_TYPE_COMPOSITE_PYTH_INTERNAL && oracle_type
        != ORACLE_TYPE_COMPOSITE_CHAINLINK_INTERNAL {
        return Err(EINVALID_ORACLE_TYPE);
    }
    Ok(oracle_source)
}

pub fn get_price(data: &OracleData) -> (r: u64)
    ensures
        r == data->price,
{
    let OracleData::V1 { price, .. } = data;
    *price
}

pub fn is_status_ok(data: &OracleData) -> (r: bool)
    ensures
        r == (data->status == OracleStatus::Okay),
{
    let OracleData::V1 { status, .. } = data;
    match status {
        OracleStatus::Okay => true,
        _ => false,
    }
}

pub fn is_status_invalid(data: &OracleData) -> (r: bool)
    ensures
        r == (data->status == OracleStatus::Invalid),
{
    let OracleData::V1 { status, .. } = data;
    match status {
        OracleStatus::Invalid => true,
        _ => false,
    }
}

pub fn is_status_down(data: &OracleData) -> (r: bool)
    ensures
        r == (data->status == OracleStatus::Down),
{
    let OracleData::V1 { status, .. } = data;
    match status {
        OracleStatus::Down => true,
        _ => false,
    }
}

/// The price and status an oracle reports for the feeds' current readings.
pub open spec fn oracle_data_spec(s: OracleSource, input: OraclePriceInput) -> OracleData {
    match s {
        OracleSource::Single { .. } => if input.primary_healthy {
            OracleData::V1 { price: input.primary_price, status: OracleStatus::Okay }
        } else {
            OracleData::V1 { price: input.primary_price, status: OracleStatus::Down }
        },
        OracleSource::Composite {
            consecutive_deviation_count,
            last_primary_price,
            current_deviation_count,
            ..
        } => if input.primary_healthy && input.secondary_healthy {
            if current_deviation_count >= consecutive_deviation_count {
                OracleData::V1 { price: input.primary_price, status: OracleStatus::Invalid }
            } else {
                OracleData::V1 { price: input.primary_price, status: OracleStatus::Okay }
            }
        } else if !input.primary_healthy && input.secondary_healthy {
            OracleData::V1 { price: input.secondary_price, status: OracleStatus::Okay }
        } else if input.primary_healthy && !input.secondary_healthy {
            OracleData::V1 { price: input.primary_price, status: OracleStatus::Okay }
        } else {
            OracleData::V1 { price: last_primary_price, status: OracleStatus::Down }
        },
    }
}

/// An Okay status reports the price of a healthy feed; a composite oracle
/// whose primary feed is down and secondary healthy reports the secondary
/// price; with both feeds healthy, the report is Invalid exactly when the
/// feeds have deviated for the configured number of consecutive readings;
/// with both feeds down it reports the last primary price it saw.
pub open spec fn oracle_data_from_healthy_feed(s: OracleSource, input: OraclePriceInput, r: OracleData) -> bool {
    &&& r->status == OracleStatus::Okay ==> ((r->price == input.primary_price && input.primary_healthy)
        || (r->price == input.secondary_price && input.secondary_healthy))
    &&& (s is Composite && !input.primary_healthy && input.secondary_healthy) ==> (r->price
        == input.secondary_price && r->status == OracleStatus::Okay)
    &&& (s is Composite && input.primary_healthy) ==> r->price == input.primary_price
    &&& (s is Composite && input.primary_healthy && !input.secondary_healthy) ==> r->status
        == OracleStatus::Okay
    &&& (s is Single) ==> (r->price == input.primary_price && (r->status == OracleStatus::Okay
        <==> input.primary_healthy))
    &&& r->status == OracleStatus::Down <==> (!input.primary_healthy && (s is Single
        || !input.secondary_healthy))
    &&& (s is Composite && !input.primary_healthy && !input.secondary_healthy) ==> r->price
        == s->last_primary_price
    &&& (s is Composite && input.primary_healthy && input.secondary_healthy) ==> (r->status
        == OracleStatus::Invalid <==> s->current_deviation_count >= s->consecutive_deviation_count)
}

/// Whatever the oracle's state, an Okay status carries the price of a healthy
/// feed; a composite oracle fails over to its healthy secondary feed when the
/// primary is down, keeps the primary price while the primary is healthy,
/// reports Invalid with both feeds healthy exactly when they have deviated
/// for the configured number of readings, and reports Down exactly when no
/// feed it reads is healthy (a composite oracle then repeating the last
/// primary price it saw).
pub proof fn lemma_oracle_reports_healthy_feed(s: OracleSource, input: OraclePriceInput)
    ensures
        oracle_data_from_healthy_feed(s, input, oracle_data_spec(s, input)),
{
}

pub fn get_oracle_data(oracle_source: &OracleSource, input: &OraclePriceInput) -> (r: OracleData)
    ensures
        r == oracle_data_spec(*oracle_source, *input),
        oracle_data_from_healthy_feed(*oracle_source, *input, r),
{
    match oracle_source {
        OracleSource::Single { .. } => {
            if input.primary_healthy {
                OracleData::V1 { price: input.primary_price, status: OracleStatus::Okay }
            } else {
                OracleData::V1 { price: input.primary_price, status: OracleStatus::Down }
            }
        },
        OracleSource::Composite {
            consecutive_deviation_count,
            last_primary_price,
            current_deviation_count,
            ..
        } => {
            let primary_healthy = input.primary_healthy;
            let secondary_healthy = input.secondary_healthy;
            if primary_healthy && secondary_healthy {
                if *current_deviation_count >= *consecutive_deviation_count {
                    return OracleData::V1 {
                        price: input.primary_price,
                        status: OracleStatus::Invalid,
                    };
                }
                OracleData::V1 { price: input.primary_price, status: OracleStatus::Okay }
            } else if !primary_healthy && secondary_healthy {
                OracleData::V1 { price: input.secondary_price, status: OracleStatus::Okay }
            } else if primary_healthy && !secondary_healthy {
                OracleData::V1 { price: input.primary_price, status: OracleStatus::Okay }
            } else {
                OracleData::V1 { price: *last_primary_price, status: OracleStatus::Down }
            }
        },
    }
}

/// The deviation counter after one comparison of the two prices: one more
/// when they deviate beyond the threshold (up to the limit), zero otherwise.
pub open spec fn next_deviation_count(
    current_price: u64,
    reference_price: u64,
    threshold_bps: u64,
    count: u8,
    limit: u8,
) -> u8 {
    if deviation_bps_spec(current_price, reference_price) > threshold_bps {
        if count >= limit {
            count
        } else {
            (count + 1) as u8
        }
    } else {
        0
    }
}

/// The composite oracle's state after observing the feeds.
pub open spec fn updated_source_spec(s: OracleSource, input: OraclePriceInput) -> OracleSource {
    match s {
        OracleSource::Single { .. } => s,
        OracleSource::Composite {
            primary,
            secondary,
            oracles_deviation_bps,
            consecutive_deviation_count,
            last_primary_price,
            current_deviation_count,
        } => if input.primary_healthy && input.secondary_healthy {
            OracleSource::Composite {
                primary,
                secondary,
                oracles_deviation_bps,
                consecutive_deviation_count,
                last_primary_price: input.primary_price,
                current_deviation_count: next_deviation_count(
                    input.primary_price,
                    input.secondary_price,
                    oracles_deviation_bps,
                    current_deviation_count,
                    consecutive_deviation_count,
                ),
            }
        } else if !input.primary_healthy && input.secondary_healthy {
            OracleSource::Composite {
                primary,
                secondary,
                oracles_deviation_bps,
                consecutive_deviation_count,
                last_primary_price,
                current_deviation_count: 0,
            }
        } else if input.primary_healthy && !input.secondary_healthy {
            OracleSource::Composite {
                primary,
                secondary,
                oracles_deviation_bps,
                consecutive_deviation_count,
                last_primary_price: input.primary_price,
                current_deviation_count: 0,
            }
        } else {
            OracleSource::Composite {
                primary,
                secondary,
                oracles_deviation_bps,
                consecutive_deviation_count,
                last_primary_price,
                current_deviation_count: 0,
            }
        },
    }
}

pub fn update_oracle_status(oracle_source: &mut OracleSource, input: &OraclePriceInput)
    ensures
        *final(oracle_source) == updated_source_spec(*old(oracle_source), *input),
{
    match oracle_source {
        OracleSource::Single { .. } => {},
        OracleSource::Composite {
            oracles_deviation_bps,
            consecutive_deviation_count,
            last_primary_price,
            current_deviation_count,
            ..
        } => {
            let primary_healthy = input.primary_healthy;
            let secondary_healthy = input.secondary_healthy;
            if primary_healthy && secondary_healthy {
                *last_primary_price = input.primary_price;
                check_and_handle_deviation(
                    input.primary_price,
                    input.secondary_price,
                    *oracles_deviation_bps,
                    current_deviation_count,
                    *consecutive_deviation_count,
                );
            } else if !primary_healthy && secondary_healthy {
                *current_deviation_count = 0;
            } else if primary_healthy && !secondary_healthy {
                *current_deviation_count = 0;
                *last_primary_price = input.primary_price;
            } else {
                *current_deviation_count = 0;
            }
        },
    }
}

/// The internal source that an oracle feeds from: the primary of a single
/// internal oracle or the secondary of a composite one.
pub fn update_internal_oracle_price(oracle_source: &OracleSource) -> (r: Result<
    InternalSourceIdentifier,
    u64,
>)
    ensures
        r == match *oracle_source {
            OracleSource::Single { primary: SingleOracleSource::Internal(internal) } => Ok::<
                InternalSourceIdentifier,
                u64,
            >(internal->source_id),
            OracleSource::Composite { secondary: SingleOracleSource::Internal(internal), .. } => Ok::<
                InternalSourceIdentifier,
                u64,
            >(internal->source_id),
            _ => Err(ENOT_INTERNAL_ORACLE),
        },
{
    match oracle_source {
        OracleSource::Single { primary: SingleOracleSource::Internal(internal) } => {
            let InternalSource::V1 { source_id, .. } = internal;
            Ok(*source_id)
        },
        OracleSource::Composite { secondary: SingleOracleSource::Internal(internal), .. } => {
            let InternalSource::V1 { source_id, .. } = internal;
            Ok(*source_id)
        },
        _ => Err(ENOT_INTERNAL_ORACLE),
    }
}

/// The signed Pyth exponent, from its magnitude taken as an `i16`.
pub open spec fn pyth_exponent(mag: u64, negative: bool) -> int {
    if negative {
        -((mag as i16) as int)
    } else {
        (mag as i16) as int
    }
}

/// The decimal shift that turns a Pyth price into the target precision.
pub open spec fn pyth_shift(mag: u64, negative: bool, rescale: i8, target_decimals: u8) -> int {
    target_decimals + rescale + pyth_exponent(mag, negative)
}

/// The number of decimals that a shift uses, as a byte.
pub open spec fn shift_digits(agg: int) -> u8 {
    if agg < 0 {
        (-agg) as u8
    } else {
        agg as u8
    }
}

/// A Pyth price (mantissa and exponent) shifted to `target_precision` and
/// `rescale_decimals`: divided down (rounding down) or scaled up.
pub fn convert_pyth_price_to_u64(
    pyth_price: u64,
    pyth_expo_magnitude: u64,
    pyth_expo_negative: bool,
    rescale_decimals: i8,
    target_precision: &Precision,
) -> (r: Result<u64, u64>)
    requires
        pyth_expo_negative ==> (pyth_expo_magnitude as i16) != i16::MIN,
        i16::MIN < pyth_shift(
            pyth_expo_magnitude,
            pyth_expo_negative,
            rescale_decimals,
            target_precision.decimals,
        ) <= i16::MAX,
        ({
            let agg = pyth_shift(
                pyth_expo_magnitude,
                pyth_expo_negative,
                rescale_decimals,
                target_precision.decimals,
            );
            agg > 0 && shift_digits(agg) <= 19 ==> pyth_price * pow10(shift_digits(agg) as nat)
                <= u64::MAX
        }),
    ensures
        ({
            let agg = pyth_shift(
                pyth_expo_magnitude,
                pyth_expo_negative,
                rescale_decimals,
                target_precision.decimals,
            );
            if agg != 0 && shift_digits(agg) > 19 {
                r == Err::<u64, u64>(math::EINVALID_ARGUMENT_4)
            } else if agg < 0 {
                r == Ok::<u64, u64>(
                    ((pyth_price as int) / (pow10(shift_digits(agg) as nat) as int)) as u64,
                )
            } else if agg > 0 {
                r == Ok::<u64, u64>((pyth_price * pow10(shift_digits(agg) as nat)) as u64)
            } else {
                r == Ok::<u64, u64>(pyth_price)
            }
        }),
{
    let mut price = pyth_price;
    let target_decimals = math::get_decimals(target_precision) as i16;
    let expo_signed: i16 = if pyth_expo_negative {
        -(#[verifier::truncate] (pyth_expo_magnitude as i16))
    } else {
        #[verifier::truncate] (pyth_expo_magnitude as i16)
    };
    let aggregate_decimals = target_decimals + (rescale_decimals as i16) + expo_signed;
    if aggregate_decimals < 0 {
        let p = math::new_precision(#[verifier::truncate] ((-aggregate_decimals) as u8))?;
        proof {
            math::lemma_pow10_positive(p.decimals as nat);
        }
        price = price / math::get_decimals_multiplier(&p);
    } else if aggregate_decimals > 0 {
        let p = math::new_precision(#[verifier::truncate] (aggregate_decimals as u8))?;
        price = price * math::get_decimals_multiplier(&p);
    }
    Ok(price)
}

pub fn get_oracle_type(oracle_source: &OracleSource) -> (r: Result<u8, u64>)
    ensures
        oracle_type_spec(*oracle_source) matches Some(t) ==> r == Ok::<u8, u64>(t),
        oracle_type_spec(*oracle_source) is None ==> r == Err::<u8, u64>(EINVALID_ORACLE_TYPE),
{
    match oracle_source {
        OracleSource::Single { primary: SingleOracleSource::Internal(_) } => Ok(
            ORACLE_TYPE_SINGLE_INTERNAL,
        ),
        OracleSource::Single { primary: SingleOracleSource::Pyth(_) } => Ok(
            ORACLE_TYPE_SINGLE_PYTH,
        ),
        OracleSource::Single { primary: SingleOracleSource::Chainlink(_) } => Ok(
            ORACLE_TYPE_SINGLE_CHAINLINK,
        ),
        OracleSource::Composite {
            primary: SingleOracleSource::Pyth(_),
            secondary: SingleOracleSource::Internal(_),
            ..
        } => Ok(ORACLE_TYPE_COMPOSITE_PYTH_INTERNAL),
        OracleSource::Composite {
            primary: SingleOracleSource::Chainlink(_),
            secondary: SingleOracleSource::Internal(_),
            ..
        } => Ok(ORACLE_TYPE_COMPOSITE_CHAINLINK_INTERNAL),
        _ => Err(EINVALID_ORACLE_TYPE),
    }
}

/// The primary price, read without any health check.
pub fn get_primary_oracle_price_unsafe(primary_price: u64) -> (r: u64)
    ensures
        r == primary_price,
{
    primary_price
}

pub fn get_secondary_oracle_price_unsafe(oracle_source: &OracleSource, secondary_price: u64) -> (r:
    Result<u64, u64>)
    ensures
        oracle_source is Composite ==> r == Ok::<u64, u64>(secondary_price),
        !(oracle_source is Composite) ==> r == Err::<u64, u64>(EINVALID_ORACLE_TYPE),
{
    match oracle_source {
        OracleSource::Composite { .. } => Ok(secondary_price),
        _ => Err(EINVALID_ORACLE_TYPE),
    }
}

pub fn is_composite(oracle_source: &OracleSource) -> (r: bool)
    ensures
        r == (oracle_source is Composite),
{
    match oracle_source {
        OracleSource::Composite { .. } => true,
        _ => false,
    }
}

pub fn get_current_deviation_count(oracle_source: &OracleSource) -> (r: u8)
    ensures
        r == match *oracle_source {
            OracleSource::Composite { current_deviation_count, .. } => current_deviation_count,
            _ => 0,
        },
{
    match oracle_source {
        OracleSource::Composite { current_deviation_count, .. } => *current_deviation_count,
        _ => 0,
    }
}

fn abs_diff(x: u64, y: u64) -> (r: u64)
    ensures
        r == if x > y {
            x - y
        } else {
            y - x
        },
{
    if x > y {
        x - y
    } else {
        y - x
    }
}

/// The distance between two prices in basis points of the first, rounded
/// down; `u64::MAX` when either price is zero.
pub open spec fn deviation_bps_spec(price1: u64, price2: u64) -> int {
    if price1 == 0 || price2 == 0 {
        u64::MAX as int
    } else {
        let diff = if price1 > price2 {
            price1 - price2
        } else {
            price2 - price1
        };
        ((diff * 10000) / (price1 as int)) as u64 as int
    }
}

pub fn calculate_deviation_bps(price1: u64, price2: u64) -> (r: u64)
    ensures
        r == deviation_bps_spec(price1, price2),
{
    if price1 == 0 || price2 == 0 {
        return u64::MAX;
    }
    let diff = abs_diff(price1, price2);
    assert((diff as int) * 10000 <= u128::MAX) by (nonlinear_arith)
        requires
            diff <= u64::MAX,
    ;
    ((diff as u128) * 10000 / (price1 as u128)) as u64
}

fn check_and_handle_deviation(
    current_price: u64,
    reference_price: u64,
    deviation_threshold_bps: u64,
    current_deviation_count: &mut u8,
    consecutive_deviation_count: u8,
)
    ensures
        *final(current_deviation_count) == next_deviation_count(
            current_price,
            reference_price,
            deviation_threshold_bps,
            *old(current_deviation_count),
            consecutive_deviation_count,
        ),
{
    let deviation_bps = calculate_deviation_bps(current_price, reference_price);
    if deviation_bps > deviation_threshold_bps {
        if *current_deviation_count >= consecutive_deviation_count {
            return ;
        }
        *current_deviation_count = *current_deviation_count + 1;
    } else {
        *current_deviation_count = 0;
    }
}

/// The deviation counter never exceeds the configured limit once it is
/// within it, so a composite oracle is reported invalid exactly while the
/// counter has reached the limit.
pub proof fn lemma_deviation_count_bounded(
    current_price: u64,
    reference_price: u64,
    threshold_bps: u64,
    count: u8,
    limit: u8,
)
    requires
        count <= limit,
    ensures
        next_deviation_count(current_price, reference_price, threshold_bps, count, limit) <= limit,
{
}

} // verus!
