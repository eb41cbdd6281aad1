//! Exponential moving averages of observations that arrive at irregular
//! times, and the moving average of the ratio between two prices (capped to
//! a deviation band).
//!
//! Weights are fixed point: the weight of a new observation is
//! `1 - e^(-elapsed / lookback)`, with `e^x` computed in 32.32 fixed point
//! from a table of integer powers and a Taylor series of twelve terms.
use vstd::prelude::*;
use crate::math::{mul_div_64, mul_div_capped_64, mul_div_round_64};

verus! {

pub const EINVALID_LOOKBACK_WINDOW: u64 = 65537;

pub const EINVALID_PRICE_IS_ZERO: u64 = 65538;

pub const ADDITIVE_PRECISION: u64 = 100_000_000;

pub const MULTIPLICATIVE_PRECISION: u64 = 1_000_000_000_000;

/// The natural logarithm of the precision, rounded down.
pub const LN_PRECISION: u64 = 18;

pub const BASIS_POINTS_MULTIPLIER: u64 = 10_000;

/// One year, in seconds.
pub const MAX_LOOKBACK_WINDOW: u64 = 31_536_000;

pub const MIN_LOOKBACK_WINDOW: u64 = 10;

pub const US_IN_SECOND: u64 = 1_000_000;

#[derive(Clone, Copy, Debug, PartialEq, Eq, Structural)]
pub enum MovingAverage {
    EMA {
        ema: u64,
        lookback_window_seconds: u64,
        last_observation_time_us: u64,
        observation_count: u64,
    },
}

#[derive(Clone, Copy, Debug, PartialEq, Eq, Structural)]
pub enum DeviationMovingAverage {
    Ratio { ratio_moving_average: MovingAverage },
}

/// One, in 32.32 fixed point.
pub open spec fn fp_one() -> int {
    0x1_0000_0000
}

/// `numerator / denominator` in 32.32 fixed point, rounded down, cut to 64
/// bits.
pub open spec fn fp_from_rational(numerator: u64, denominator: u64) -> u64 {
    ((numerator * fp_one()) / (denominator as int)) as u64
}

fn fixed_point32_create_from_rational(numerator: u64, denominator: u64) -> (r: u64)
    requires
        denominator != 0,
    ensures
        r == fp_from_rational(numerator, denominator),
{
    let n = numerator as u128;
    assert(n << 32u128 == n * 0x1_0000_0000) by (bit_vector)
        requires
            n < 0x1_0000_0000_0000_0000,
    ;
    let result = (n << 32) / (denominator as u128);
    #[verifier::truncate] (result as u64)
}

/// `a` divided by the fixed-point number `fp`, rounded down, cut to 64 bits.
pub open spec fn fp_divide(a: u64, fp: u64) -> u64 {
    ((a * fp_one()) / (fp as int)) as u64
}

fn fixed_point32_divide_u64(a: u64, fp: u64) -> (r: u64)
    requires
        fp != 0,
    ensures
        r == fp_divide(a, fp),
{
    let n = a as u128;
    assert(n << 32u128 == n * 0x1_0000_0000) by (bit_vector)
        requires
            n < 0x1_0000_0000_0000_0000,
    ;
    #[verifier::truncate] (((n << 32) / (fp as u128)) as u64)
}

/// `e^i` for `i` from 0 to 19, in 32.32 fixed point.
pub open spec fn e_power(i: int) -> int {
    if i == 0 {
        0x1_0000_0000
    } else if i == 1 {
        11_674_931_554
    } else if i == 2 {
        31_723_502_206
    } else if i == 3 {
        86_228_223_028
    } else if i == 4 {
        234_397_175_891
    } else if i == 5 {
        637_168_811_498
    } else if i == 6 {
        1_731_782_975_498
    } else if i == 7 {
        4_706_897_774_387
    } else if i == 8 {
        12_793_204_786_662
    } else if i == 9 {
        34_770_609_685_449
    } else if i == 10 {
        94_528_032_188_227
    } else if i == 11 {
        256_926_822_858_498
    } else if i == 12 {
        698_413_346_998_011
    } else if i == 13 {
        1_898_556_940_958_583
    } else if i == 14 {
        5_160_415_435_498_686
    } else if i == 15 {
        14_026_108_428_641_994
    } else if i == 16 {
        38_127_280_945_498_060
    } else if i == 17 {
        103_636_334_536_041_578
    } else if i == 18 {
        281_731_383_689_083_625
    } else {
        765_714_854_041_498_050
    }
}

fn e_power_at(i: u32) -> (r: u128)
    requires
        i < 20,
    ensures
        r == e_power(i as int),
        r <= 765_714_854_041_498_050,
{
    if i == 0 {
        0x1_0000_0000
    } else if i == 1 {
        11_674_931_554
    } else if i == 2 {
        31_723_502_206
    } else if i == 3 {
        86_228_223_028
    } else if i == 4 {
        234_397_175_891
    } else if i == 5 {
        637_168_811_498
    } else if i == 6 {
        1_731_782_975_498
    } else if i == 7 {
        4_706_897_774_387
    } else if i == 8 {
        12_793_204_786_662
    } else if i == 9 {
        34_770_609_685_449
    } else if i == 10 {
        94_528_032_188_227
    } else if i == 11 {
        256_926_822_858_498
    } else if i == 12 {
        698_413_346_998_011
    } else if i == 13 {
        1_898_556_940_958_583
    } else if i == 14 {
        5_160_415_435_498_686
    } else if i == 15 {
        14_026_108_428_641_994
    } else if i == 16 {
        38_127_280_945_498_060
    } else if i == 17 {
        103_636_334_536_041_578
    } else if i == 18 {
        281_731_383_689_083_625
    } else {
        765_714_854_041_498_050
    }
}

/// The `n`-th term of the Taylor series of `e^f` (for `f` in fixed point,
/// below one), each term got from the one before by multiplying by `f` and
/// dividing by `n`, rounding down.
pub open spec fn taylor_term(f: int, n: nat) -> int
    decreases n,
{
    if n == 0 {
        fp_one()
    } else {
        taylor_term(f, (n - 1) as nat) * f / (n * fp_one())
    }
}

/// The sum of the Taylor terms from the zeroth to the `n`-th.
pub open spec fn taylor_sum(f: int, n: nat) -> int
    decreases n,
{
    if n == 0 {
        fp_one()
    } else {
        taylor_sum(f, (n - 1) as nat) + taylor_term(f, n)
    }
}

/// `e^x` for `x` in 32.32 fixed point: the table's power of the integer
/// part times twelve terms of the series of the fractional part; the
/// largest 64-bit number where the result is too large.
pub open spec fn exp_fixed(x: u64) -> u64 {
    if x == 0 {
        0x1_0000_0000
    } else {
        let ip = (x as int) / fp_one();
        let f = (x as int) % fp_one();
        if ip >= 20 {
            u64::MAX
        } else {
            let c = (e_power(ip) * taylor_sum(f, 12)) / fp_one();
            if c > u64::MAX {
                u64::MAX
            } else {
                c as u64
            }
        }
    }
}

proof fn lemma_taylor_bounds(f: int, n: nat)
    requires
        0 <= f < fp_one(),
    ensures
        0 <= taylor_term(f, n) <= fp_one(),
        fp_one() <= taylor_sum(f, n) <= (n + 1) * fp_one(),
    decreases n,
{
    if n > 0 {
        lemma_taylor_bounds(f, (n - 1) as nat);
        let t = taylor_term(f, (n - 1) as nat);
        assert(t * f <= fp_one() * (n * fp_one())) by (nonlinear_arith)
            requires
                0 <= t <= fp_one(),
                0 <= f < fp_one(),
                n >= 1,
        ;
        assert(0 <= t * f) by (nonlinear_arith)
            requires
                0 <= t,
                0 <= f,
        ;
        assert(t * f / (n * fp_one()) <= fp_one()) by (nonlinear_arith)
            requires
                t * f <= fp_one() * (n * fp_one()),
                n >= 1,
        ;
        assert(t * f / (n * fp_one()) >= 0) by (nonlinear_arith)
            requires
                t * f >= 0,
                n >= 1,
        ;
    }
}

proof fn lemma_taylor_zero_stays(f: int, k: nat, n: nat)
    requires
        k <= n,
        taylor_term(f, k) == 0,
    ensures
        taylor_term(f, n) == 0,
        taylor_sum(f, n) == taylor_sum(f, k),
    decreases n,
{
    if k < n {
        lemma_taylor_zero_stays(f, k, (n - 1) as nat);
    }
}

fn math_fixed_exp(x: u64) -> (r: u64)
    ensures
        r == exp_fixed(x),
        r >= 0x1_0000_0000,
{
    let one: u128 = 0x1_0000_0000;
    if x == 0 {
        return 0x1_0000_0000;
    }
    let x128 = x as u128;
    assert(x128 >> 32u128 == x128 / 0x1_0000_0000) by (bit_vector);
    assert(x128 & 0xFFFF_FFFFu128 == x128 % 0x1_0000_0000) by (bit_vector);
    let ip128 = x128 >> 32;
    let f = x128 & 0xFFFF_FFFF;
    if ip128 >= 20 {
        return u64::MAX;
    }
    let e_int = e_power_at(ip128 as u32);
    let mut result: u128 = one;
    let mut term: u128 = one;
    let mut n: u128 = 1;
    proof {
        lemma_taylor_bounds(f as int, 12);
    }
    while n <= 12
        invariant_except_break
            1 <= n <= 13,
            f < 0x1_0000_0000,
            one == 0x1_0000_0000,
            term == taylor_term(f as int, (n - 1) as nat),
            result == taylor_sum(f as int, (n - 1) as nat),
            fp_one() <= taylor_sum(f as int, 12) <= 13 * fp_one(),
        ensures
            result == taylor_sum(f as int, 12),
        decreases 13 - n,
    {
        proof {
            lemma_taylor_bounds(f as int, (n - 1) as nat);
            lemma_taylor_bounds(f as int, n as nat);
            assert(term * f <= 0x1_0000_0000 * 0x1_0000_0000) by (nonlinear_arith)
                requires
                    term <= 0x1_0000_0000,
                    f < 0x1_0000_0000,
            ;
        }
        term = term * f / (n * one);
        result = result + term;
        if term == 0 {
            proof {
                lemma_taylor_zero_stays(f as int, n as nat, 12);
            }
            break;
        }
        n = n + 1;
    }
    proof {
        assert(e_int * result <= 765_714_854_041_498_050 * (13 * 0x1_0000_0000)) by (nonlinear_arith)
            requires
                e_int <= 765_714_854_041_498_050,
                result <= 13 * 0x1_0000_0000,
        ;
        assert(e_int >= 0x1_0000_0000) by {
            reveal_with_fuel(e_power, 1);
        }
        assert(e_int * result >= 0x1_0000_0000 * 0x1_0000_0000) by (nonlinear_arith)
            requires
                e_int >= 0x1_0000_0000,
                result >= 0x1_0000_0000,
        ;
    }
    let prod = e_int * result;
    assert(prod >> 32u128 == prod / 0x1_0000_0000) by (bit_vector);
    let combined = prod >> 32;
    if combined > (u64::MAX as u128) {
        u64::MAX
    } else {
        combined as u64
    }
}

/// A moving average over a lookback window of 10 seconds to a year, with no
/// observation yet.
pub fn new_ema(lookback_window_seconds: u64) -> (r: Result<MovingAverage, u64>)
    ensures
        lookback_window_seconds < MIN_LOOKBACK_WINDOW || lookback_window_seconds
            > MAX_LOOKBACK_WINDOW ==> r == Err::<MovingAverage, u64>(EINVALID_LOOKBACK_WINDOW),
        MIN_LOOKBACK_WINDOW <= lookback_window_seconds <= MAX_LOOKBACK_WINDOW ==> r == Ok::<
            MovingAverage,
            u64,
        >(
            MovingAverage::EMA {
                ema: 0,
                lookback_window_seconds,
                last_observation_time_us: 0,
                observation_count: 0,
            },
        ),
{
    if lookback_window_seconds < MIN_LOOKBACK_WINDOW {
        return Err(EINVALID_LOOKBACK_WINDOW);
    }
    if lookback_window_seconds > MAX_LOOKBACK_WINDOW {
        return Err(EINVALID_LOOKBACK_WINDOW);
    }
    Ok(
        MovingAverage::EMA {
            ema: 0,
            lookback_window_seconds,
            last_observation_time_us: 0,
            observation_count: 0,
        },
    )
}

/// A moving average of price ratios over the given lookback window.
pub fn new_ratio_ema(lookback_window_seconds: u64) -> (r: Result<DeviationMovingAverage, u64>)
    ensures
        lookback_window_seconds < MIN_LOOKBACK_WINDOW || lookback_window_seconds
            > MAX_LOOKBACK_WINDOW ==> r == Err::<DeviationMovingAverage, u64>(
            EINVALID_LOOKBACK_WINDOW,
        ),
        MIN_LOOKBACK_WINDOW <= lookback_window_seconds <= MAX_LOOKBACK_WINDOW ==> r == Ok::<
            DeviationMovingAverage,
            u64,
        >(
            DeviationMovingAverage::Ratio {
                ratio_moving_average: MovingAverage::EMA {
                    ema: 0,
                    lookback_window_seconds,
                    last_observation_time_us: 0,
                    observation_count: 0,
                },
            },
        ),
{
    match new_ema(lookback_window_seconds) {
        Ok(ma) => Ok(DeviationMovingAverage::Ratio { ratio_moving_average: ma }),
        Err(e) => Err(e),
    }
}

fn has_estimate(ma: &MovingAverage) -> (r: bool)
    ensures
        r == (ma->observation_count > 0),
{
    let MovingAverage::EMA { observation_count, .. } = ma;
    *observation_count > 0
}

fn should_discard_observation(ma: &MovingAverage, timestamp_us: u64) -> (r: bool)
    ensures
        r == (ma->observation_count > 0 && timestamp_us <= ma->last_observation_time_us),
{
    let MovingAverage::EMA { observation_count, last_observation_time_us, .. } = ma;
    *observation_count > 0 && timestamp_us <= *last_observation_time_us
}

/// The weight of a new observation after `time_elapsed_us`, out of
/// `ADDITIVE_PRECISION`: `1 - 1 / e^(elapsed / lookback)`, or all of it
/// after eighteen lookback windows.
pub open spec fn alpha_spec(lookback_window_seconds: u64, time_elapsed_us: u64) -> u64 {
    let lookback_us = lookback_window_seconds * US_IN_SECOND;
    if time_elapsed_us > LN_PRECISION * lookback_us {
        ADDITIVE_PRECISION
    } else {
        (ADDITIVE_PRECISION - fp_divide(
            ADDITIVE_PRECISION,
            exp_fixed(fp_from_rational(time_elapsed_us, lookback_us as u64)),
        )) as u64
    }
}

fn calculate_alpha(lookback_window_seconds: u64, time_elapsed_us: u64) -> (r: u64)
    requires
        lookback_window_seconds <= MAX_LOOKBACK_WINDOW,
        time_elapsed_us > 0,
    ensures
        r == alpha_spec(lookback_window_seconds, time_elapsed_us),
        r <= ADDITIVE_PRECISION,
{
    let lookback_window_us = lookback_window_seconds * US_IN_SECOND;
    if time_elapsed_us > LN_PRECISION * lookback_window_us {
        return ADDITIVE_PRECISION;
    }
    let time_exponent = math_fixed_exp(
        fixed_point32_create_from_rational(time_elapsed_us, lookback_window_us),
    );
    let d = fixed_point32_divide_u64(ADDITIVE_PRECISION, time_exponent);
    proof {
        assert(ADDITIVE_PRECISION * fp_one() / (time_exponent as int) <= ADDITIVE_PRECISION)
            by (nonlinear_arith)
            requires
                time_exponent >= fp_one(),
        ;
    }
    ADDITIVE_PRECISION - d
}

/// The moving average after an observation at `timestamp_us`: an
/// observation not later than the last one is ignored; the first one is
/// taken as it is; later ones are weighted in by the time elapsed.
pub open spec fn observed(ma: MovingAverage, observation: u64, timestamp_us: u64) -> MovingAverage {
    let MovingAverage::EMA { ema, lookback_window_seconds, last_observation_time_us, observation_count } = ma;
    if observation_count > 0 && timestamp_us <= last_observation_time_us {
        ma
    } else {
        let new_ema = if observation_count == 0 {
            observation
        } else {
            let alpha = alpha_spec(lookback_window_seconds, (timestamp_us - last_observation_time_us) as u64);
            ((alpha * observation / (ADDITIVE_PRECISION as int)) + ((ADDITIVE_PRECISION - alpha)
                * ema / (ADDITIVE_PRECISION as int))) as u64
        };
        MovingAverage::EMA {
            ema: new_ema,
            lookback_window_seconds,
            last_observation_time_us: timestamp_us,
            observation_count: (observation_count + 1) as u64,
        }
    }
}

/// Adds an observation made at `timestamp_us`.
pub fn add_moving_average_observation(ma: &mut MovingAverage, observation: u64, timestamp_us: u64)
    requires
        old(ma)->lookback_window_seconds <= MAX_LOOKBACK_WINDOW,
        old(ma)->observation_count < u64::MAX,
    ensures
        *final(ma) == observed(*old(ma), observation, timestamp_us),
{
    if should_discard_observation(ma, timestamp_us) {
        return ;
    }
    let MovingAverage::EMA { ema, lookback_window_seconds, last_observation_time_us, observation_count } = *ma;
    let new_ema = if observation_count == 0 {
        observation
    } else {
        let alpha = calculate_alpha(lookback_window_seconds, timestamp_us - last_observation_time_us);
        let alpha_term = match mul_div_64(alpha, observation, ADDITIVE_PRECISION) {
            Ok(v) => v,
            Err(_) => vstd::pervasive::unreached(),
        };
        let complement_term = match mul_div_64(ADDITIVE_PRECISION - alpha, ema, ADDITIVE_PRECISION) {
            Ok(v) => v,
            Err(_) => vstd::pervasive::unreached(),
        };
        proof {
            assert(alpha * observation / (ADDITIVE_PRECISION as int) <= observation) by (nonlinear_arith)
                requires
                    alpha <= ADDITIVE_PRECISION,
            ;
            assert((ADDITIVE_PRECISION - alpha) * ema / (ADDITIVE_PRECISION as int) <= ema)
                by (nonlinear_arith)
                requires
                    alpha <= ADDITIVE_PRECISION,
            ;
            assert(alpha * observation / (ADDITIVE_PRECISION as int) + (ADDITIVE_PRECISION - alpha)
                * ema / (ADDITIVE_PRECISION as int) <= u64::MAX) by (nonlinear_arith)
                requires
                    alpha <= ADDITIVE_PRECISION,
                    observation <= u64::MAX,
                    ema <= u64::MAX,
            ;
        }
        alpha_term + complement_term
    };
    *ma = MovingAverage::EMA {
        ema: new_ema,
        lookback_window_seconds,
        last_observation_time_us: timestamp_us,
        observation_count: observation_count + 1,
    };
}

pub fn get_moving_average_value(ma: &MovingAverage) -> (r: u64)
    ensures
        r == ma->ema,
{
    let MovingAverage::EMA { ema, .. } = ma;
    *ema
}

/// The ratio of `actual_px` to `base_px` (in `MULTIPLICATIVE_PRECISION`),
/// kept within the band of `deviation_cap_bps` either way.
pub open spec fn capped_ratio(base_px: u64, actual_px: u64, deviation_cap_bps: u64) -> u64 {
    let min_ratio = (MULTIPLICATIVE_PRECISION * BASIS_POINTS_MULTIPLIER / (BASIS_POINTS_MULTIPLIER
        + deviation_cap_bps)) as u64;
    let max_ratio = (MULTIPLICATIVE_PRECISION * (BASIS_POINTS_MULTIPLIER + deviation_cap_bps)
        / (BASIS_POINTS_MULTIPLIER as int)) as u64;
    let raw = actual_px * MULTIPLICATIVE_PRECISION / (base_px as int);
    let capped = if raw > max_ratio {
        max_ratio
    } else {
        raw as u64
    };
    if capped < min_ratio {
        min_ratio
    } else {
        capped
    }
}

/// Adds the ratio of `actual_px` to `base_px`, capped to the deviation band,
/// as an observation; a zero price is refused.
pub fn add_deviation_observation(
    dma: &mut DeviationMovingAverage,
    base_px: u64,
    actual_px: u64,
    timestamp_us: u64,
    deviation_cap_bps: u64,
) -> (r: Result<(), u64>)
    requires
        BASIS_POINTS_MULTIPLIER + deviation_cap_bps <= u64::MAX,
        old(dma)->ratio_moving_average->lookback_window_seconds <= MAX_LOOKBACK_WINDOW,
        old(dma)->ratio_moving_average->observation_count < u64::MAX,
    ensures
        base_px == 0 || actual_px == 0 ==> r == Err::<(), u64>(EINVALID_PRICE_IS_ZERO) && *final(dma)
            == *old(dma),
        base_px != 0 && actual_px != 0 ==> r is Ok && *final(dma) == (DeviationMovingAverage::Ratio {
            ratio_moving_average: observed(
                old(dma)->ratio_moving_average,
                capped_ratio(base_px, actual_px, deviation_cap_bps),
                timestamp_us,
            ),
        }),
{
    if base_px == 0 {
        return Err(EINVALID_PRICE_IS_ZERO);
    }
    if actual_px == 0 {
        return Err(EINVALID_PRICE_IS_ZERO);
    }
    let min_ratio = match mul_div_64(
        MULTIPLICATIVE_PRECISION,
        BASIS_POINTS_MULTIPLIER,
        BASIS_POINTS_MULTIPLIER + deviation_cap_bps,
    ) {
        Ok(v) => v,
        Err(e) => {
            return Err(e);
        },
    };
    let max_ratio = match mul_div_64(
        MULTIPLICATIVE_PRECISION,
        BASIS_POINTS_MULTIPLIER + deviation_cap_bps,
        BASIS_POINTS_MULTIPLIER,
    ) {
        Ok(v) => v,
        Err(e) => {
            return Err(e);
        },
    };
    let mut ratio_observation = match mul_div_capped_64(
        actual_px,
        MULTIPLICATIVE_PRECISION,
        base_px,
        max_ratio,
    ) {
        Ok(v) => v,
        Err(e) => {
            return Err(e);
        },
    };
    if ratio_observation < min_ratio {
        ratio_observation = min_ratio;
    }
    let DeviationMovingAverage::Ratio { mut ratio_moving_average } = *dma;
    add_moving_average_observation(&mut ratio_moving_average, ratio_observation, timestamp_us);
    *dma = DeviationMovingAverage::Ratio { ratio_moving_average };
    Ok(())
}

/// The estimated price: `base_px` times the averaged ratio (rounded to the
/// nearest), or `base_px` itself before any observation.
pub fn get_ratio_estimated_value(dma: &DeviationMovingAverage, base_px: u64) -> (r: Result<u64, u64>)
    ensures
        dma->ratio_moving_average->observation_count == 0 ==> r == Ok::<u64, u64>(base_px),
        dma->ratio_moving_average->observation_count > 0 ==> r == Ok::<u64, u64>(
            ((base_px * dma->ratio_moving_average->ema + MULTIPLICATIVE_PRECISION / 2)
                / (MULTIPLICATIVE_PRECISION as int)) as u64,
        ),
{
    let DeviationMovingAverage::Ratio { ratio_moving_average } = dma;
    if !has_estimate(ratio_moving_average) {
        return Ok(base_px);
    }
    mul_div_round_64(base_px, get_moving_average_value(ratio_moving_average), MULTIPLICATIVE_PRECISION)
}

/// An observation never lifts the average above the larger of the old
/// average and the observation; the first observation becomes the average.
pub proof fn lemma_observation_bounded(ma: MovingAverage, observation: u64, timestamp_us: u64)
    requires
        ma->lookback_window_seconds <= MAX_LOOKBACK_WINDOW,
        ma->observation_count < u64::MAX,
    ensures
        ma->observation_count == 0 ==> observed(ma, observation, timestamp_us)->ema == observation,
        observed(ma, observation, timestamp_us)->ema <= (if observation >= ma->ema {
            observation
        } else {
            ma->ema
        }),
{
    let MovingAverage::EMA { ema, lookback_window_seconds, last_observation_time_us, observation_count } = ma;
    if observation_count > 0 && timestamp_us > last_observation_time_us {
        let alpha = alpha_spec(lookback_window_seconds, (timestamp_us - last_observation_time_us) as u64);
        let m: int = if observation >= ema {
            observation as int
        } else {
            ema as int
        };
        assert(alpha <= ADDITIVE_PRECISION) by {
            let lookback_us = lookback_window_seconds * US_IN_SECOND;
            if !((timestamp_us - last_observation_time_us) > LN_PRECISION * lookback_us) {
                let e = exp_fixed(fp_from_rational((timestamp_us - last_observation_time_us) as u64, lookback_us as u64));
                assert(e >= fp_one()) by {
                    lemma_exp_fixed_at_least_one(fp_from_rational((timestamp_us - last_observation_time_us) as u64, lookback_us as u64));
                }
                assert(ADDITIVE_PRECISION * fp_one() / (e as int) <= ADDITIVE_PRECISION) by (nonlinear_arith)
                    requires
                        e >= fp_one(),
                ;
            }
        }
        assert(alpha * observation / (ADDITIVE_PRECISION as int) + (ADDITIVE_PRECISION - alpha) * ema
            / (ADDITIVE_PRECISION as int) <= m) by (nonlinear_arith)
            requires
                alpha <= ADDITIVE_PRECISION,
                observation <= m,
                ema <= m,
                0 <= observation,
                0 <= ema,
        ;
    }
}

proof fn lemma_exp_fixed_at_least_one(x: u64)
    ensures
        exp_fixed(x) >= fp_one(),
{
    if x != 0 {
        let ip = (x as int) / fp_one();
        let f = (x as int) % fp_one();
        if ip < 20 {
            lemma_taylor_bounds(f, 12);
            let t = taylor_sum(f, 12);
            assert(e_power(ip) >= fp_one());
            assert(e_power(ip) * t >= fp_one() * fp_one()) by (nonlinear_arith)
                requires
                    e_power(ip) >= fp_one(),
                    t >= fp_one(),
            ;
        }
    }
}

} // verus!
