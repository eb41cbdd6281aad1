//! Chainlink price reports: decoding a report and rescaling its price to the
//! market's decimals.
use vstd::prelude::*;
use crate::math::{self, pow10};

verus! {

pub const ENORMALIZED_PRICE_OUT_OF_RANGE: u64 = 4;

pub const ENEGATIVE_PRICE: u64 = 5;

pub const CHAINLINK_PRICE_DECIMALS: u8 = 18;

#[derive(Clone, Copy, Debug, PartialEq, Eq, Structural)]
pub enum PriceData {
    V1 { price: u128, timestamp: u32 },
}

#[derive(Clone, Copy, Debug, PartialEq, Eq, Structural)]
pub enum PriceStore {
    V1 {  },
}

/// Prices arrive as unsigned numbers here, so none is negative.
pub fn is_price_negative_u128(price: u128) -> (r: bool)
    ensures
        !r,
{
    false
}

/// The decimal shift from oracle decimals to target decimals (plus rescale).
pub open spec fn aggregate_decimals(oracle_decimals: u8, rescale_decimals: i8, target_decimals: u8) -> int {
    target_decimals + rescale_decimals - oracle_decimals
}

/// The number of decimals the shift uses, as a byte.
pub open spec fn shift_digits(agg: int) -> u8 {
    if agg < 0 {
        (-agg) as u8
    } else {
        agg as u8
    }
}

/// The rescaled price, before the range check.
pub open spec fn scaled_price(raw: int, agg: int) -> int {
    if agg < 0 {
        raw / (pow10(shift_digits(agg) as nat) as int)
    } else if agg > 0 {
        raw * pow10(shift_digits(agg) as nat)
    } else {
        raw
    }
}

/// What converting a raw price gives: the rescaled price and the raw
/// timestamp, or out of range where the shift or the price does not fit.
pub open spec fn converted(
    raw_price: u128,
    raw_timestamp: u32,
    oracle_decimals: u8,
    rescale_decimals: i8,
    target_decimals: u8,
) -> Result<(u64, u32), u64> {
    let agg = aggregate_decimals(oracle_decimals, rescale_decimals, target_decimals);
    if agg != 0 && shift_digits(agg) > 19 {
        Err(ENORMALIZED_PRICE_OUT_OF_RANGE)
    } else if scaled_price(raw_price as int, agg) > u64::MAX {
        Err(ENORMALIZED_PRICE_OUT_OF_RANGE)
    } else {
        Ok((scaled_price(raw_price as int, agg) as u64, raw_timestamp))
    }
}

/// Rescales a raw price from `oracle_decimals` to `target_decimals` (shifted
/// by `rescale_decimals`) and checks that it fits in a `u64`.
pub fn convert_price(
    raw_price: u128,
    raw_timestamp: u32,
    oracle_decimals: u8,
    rescale_decimals: i8,
    target_decimals: u8,
) -> (r: Result<(u64, u32), u64>)
    requires
        ({
            let agg = aggregate_decimals(oracle_decimals, rescale_decimals, target_decimals);
            agg > 0 && shift_digits(agg) <= 19 ==> raw_price * pow10(shift_digits(agg) as nat)
                <= u128::MAX
        }),
    ensures
        r == converted(raw_price, raw_timestamp, oracle_decimals, rescale_decimals, target_decimals),
{
    if is_price_negative_u128(raw_price) {
        return Err(ENEGATIVE_PRICE);
    }
    let mut price = raw_price;
    let aggregate_decimals: i16 = (target_decimals as i16) + (rescale_decimals as i16) - (
    oracle_decimals as i16);
    if aggregate_decimals < 0 {
        let divisor = match math::new_precision(#[verifier::truncate] ((-aggregate_decimals) as u8)) {
            Ok(p) => p,
            Err(_) => {
                return Err(ENORMALIZED_PRICE_OUT_OF_RANGE);
            },
        };
        proof {
            math::lemma_pow10_positive(divisor.decimals as nat);
        }
        price = price / (math::get_decimals_multiplier(&divisor) as u128);
    } else if aggregate_decimals > 0 {
        let multiplier = match math::new_precision(#[verifier::truncate] (aggregate_decimals as u8)) {
            Ok(p) => p,
            Err(_) => {
                return Err(ENORMALIZED_PRICE_OUT_OF_RANGE);
            },
        };
        price = price * (math::get_decimals_multiplier(&multiplier) as u128);
    }
    if price > 0xffff_ffff_ffff_ffffu128 {
        return Err(ENORMALIZED_PRICE_OUT_OF_RANGE);
    }
    Ok((price as u64, raw_timestamp))
}

/// A Chainlink price (18 decimals) rescaled to `target_decimals`.
pub fn get_converted_price(
    raw_price: u128,
    raw_timestamp: u32,
    rescale_decimals: i8,
    target_decimals: u8,
) -> (r: Result<u64, u64>)
    requires
        ({
            let agg = aggregate_decimals(
                CHAINLINK_PRICE_DECIMALS,
                rescale_decimals,
                target_decimals,
            );
            agg > 0 && shift_digits(agg) <= 19 ==> raw_price * pow10(shift_digits(agg) as nat)
                <= u128::MAX
        }),
    ensures
        r == match converted(raw_price, raw_timestamp, CHAINLINK_PRICE_DECIMALS, rescale_decimals, target_decimals) {
            Ok((price, _)) => Ok::<u64, u64>(price),
            Err(e) => Err(e),
        },
{
    let (price, _timestamp) = convert_price(
        raw_price,
        raw_timestamp,
        CHAINLINK_PRICE_DECIMALS,
        rescale_decimals,
        target_decimals,
    )?;
    Ok(price)
}

pub fn get_latest_price(data: &PriceData) -> (r: (u128, u32))
    ensures
        r == match *data {
            PriceData::V1 { price, timestamp } => (price, timestamp),
        },
{
    let PriceData::V1 { price, timestamp } = data;
    (*price, *timestamp)
}

/// The big-endian number that the bytes spell.
pub open spec fn big_endian(s: Seq<u8>) -> nat
    decreases s.len(),
{
    if s.len() == 0 {
        0
    } else {
        big_endian(s.drop_last()) * 256 + s.last() as nat
    }
}

proof fn lemma_big_endian_bound(s: Seq<u8>)
    ensures
        big_endian(s) < math::pow2i(8 * s.len()),
    decreases s.len(),
{
    if s.len() > 0 {
        lemma_big_endian_bound(s.drop_last());
        let n = (8 * s.len()) as nat;
        reveal_with_fuel(math::pow2i, 9);
        assert(math::pow2i(8) == 256);
        math::lemma_pow2i_adds_pub((8 * (s.len() - 1)) as nat, 8);
        assert(big_endian(s.drop_last()) * 256 + s.last() < math::pow2i(
            (8 * (s.len() - 1)) as nat,
        ) * 256) by (nonlinear_arith)
            requires
                big_endian(s.drop_last()) < math::pow2i((8 * (s.len() - 1)) as nat),
                s.last() < 256,
        ;
    }
}

/// Decodes a version-3 report: the feed id (bytes 0..32), the timestamp (the
/// low four bytes of the third word) and the price (the low sixteen bytes of
/// the seventh word, an int192 taken as non-negative).
pub fn parse_v3_report(report_data: &[u8]) -> (r: (Vec<u8>, PriceData))
    requires
        report_data@.len() >= 224,
    ensures
        r.0@ == report_data@.subrange(0, 32),
        r.1 == (PriceData::V1 {
            price: big_endian(report_data@.subrange(208, 224)) as u128,
            timestamp: big_endian(report_data@.subrange(92, 96)) as u32,
        }),
{
    let mut feed_id: Vec<u8> = Vec::new();
    let mut i: usize = 0;
    while i < 32
        invariant
            i <= 32,
            report_data@.len() >= 224,
            feed_id@ == report_data@.subrange(0, i as int),
        decreases 32 - i,
    {
        feed_id.push(report_data[i]);
        i += 1;
        assert(feed_id@ =~= report_data@.subrange(0, i as int));
    }
    let timestamp = read_u32(report_data, 64);
    let price = read_u128_from_int192(report_data, 192);
    (feed_id, PriceData::V1 { price, timestamp })
}

fn read_u32(data: &[u8], offset: usize) -> (r: u32)
    requires
        offset + 32 <= data@.len(),
    ensures
        r == big_endian(data@.subrange(offset + 28, offset + 32)),
{
    let len = data.len();
    assert(offset + 32 <= len);
    let word_offset = offset + 28;
    let ghost s = data@.subrange(offset + 28, offset + 32);
    proof {
        assert(s.drop_last().drop_last().drop_last().drop_last() =~= Seq::<u8>::empty());
        reveal_with_fuel(big_endian, 5);
    }
    let r = (data[word_offset] as u32) * 16777216 + (data[word_offset + 1] as u32) * 65536 + (
    data[word_offset + 2] as u32) * 256 + (data[word_offset + 3] as u32);
    r
}

fn read_u128_from_int192(data: &[u8], offset: usize) -> (r: u128)
    requires
        offset + 32 <= data@.len(),
    ensures
        r == big_endian(data@.subrange(offset + 16, offset + 32)),
{
    let len = data.len();
    assert(offset + 32 <= len);
    let mut value: u128 = 0;
    let word_offset = offset + 8;
    let mut i: usize = 8;
    proof {
        assert(data@.subrange(word_offset + 8, word_offset + 8) =~= Seq::<u8>::empty());
    }
    while i < 24
        invariant
            8 <= i <= 24,
            word_offset == offset + 8,
            offset + 32 <= data@.len(),
            len == data@.len(),
            value == big_endian(data@.subrange(word_offset + 8, word_offset + i)),
        decreases 24 - i,
    {
        let ghost prev = data@.subrange(word_offset + 8, word_offset + i);
        proof {
            lemma_big_endian_bound(prev);
            math::lemma_pow2i_monotone_pub((8 * prev.len()) as nat, 120);
            math::lemma_pow2i_adds_pub(120, 8);
            reveal_with_fuel(math::pow2i, 9);
            assert(math::pow2i(8) == 256);
            math::lemma_pow2i_values_pub();
            assert(value * 256 + 255 <= u128::MAX) by (nonlinear_arith)
                requires
                    value < math::pow2i(120),
                    math::pow2i(128) == math::pow2i(120) * 256,
                    math::pow2i(128) == math::two128(),
            ;
        }
        value = value * 256 + (data[word_offset + i] as u128);
        i += 1;
        proof {
            let cur = data@.subrange(word_offset + 8, word_offset + i);
            assert(cur.drop_last() =~= prev);
        }
    }
    value
}

} // verus!
