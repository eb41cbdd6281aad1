//! Signed (`i64`) counterparts of the fixed-point helpers, with explicit
//! rounding toward positive or negative infinity.
use vstd::prelude::*;
use crate::math::{self, Precision, ceil_div_spec, pow10};

verus! {

/// Error code for a zero divisor.
pub const EDIVISION_BY_ZERO: u64 = 4;

/// Rust's `/` on integers with a positive divisor: the quotient rounded
/// toward zero.
pub open spec fn trunc_div(x: int, y: int) -> int {
    if x >= 0 {
        x / y
    } else {
        -((-x) / y)
    }
}

/// Rust's `/` on integers with any nonzero divisor: the quotient rounded
/// toward zero.
pub open spec fn quot(x: int, y: int) -> int {
    if y > 0 {
        trunc_div(x, y)
    } else {
        -trunc_div(x, -y)
    }
}

/// A `u64` divisor read as the `i64` of the same bits.
pub open spec fn as_signed(y: u64) -> int {
    if y <= i64::MAX {
        y as int
    } else {
        y - 0x1_0000_0000_0000_0000int
    }
}

/// What `ceil_div` computes with the divisor taken as signed: `(x - 1) / y
/// + 1` for a positive `x`, `x / y` for a negative one, Rust's `/`.
pub open spec fn ceil_div_signed(x: int, y: int) -> int {
    if x == 0 {
        0
    } else if x > 0 {
        quot(x - 1, y) + 1
    } else {
        quot(x, y)
    }
}

/// What `floor_div` computes with the divisor taken as signed: `x / y` for
/// a non-negative `x`, `(x + 1) / y - 1` for a negative one, Rust's `/`.
pub open spec fn floor_div_signed(x: int, y: int) -> int {
    if x >= 0 {
        quot(x, y)
    } else {
        quot(x + 1, y) - 1
    }
}

/// `a / y` for `y` the negative `i64` whose magnitude is `m`, as Rust's
/// `/` gives it: rounded toward zero.
fn div_by_negative(a: i64, m: u64) -> (r: i64)
    requires
        1 <= m <= 0x8000_0000_0000_0000u64,
        !(a == i64::MIN && m == 1),
    ensures
        r == quot(a as int, -(m as int)),
{
    if a >= 0 {
        let q = (a as u64) / m;
        assert(q <= a) by {
            vstd::arithmetic::div_mod::lemma_div_is_ordered_by_denominator(a as int, 1, m as int);
        }
        -(q as i64)
    } else {
        let n: u64 = ((-(a + 1)) as u64) + 1;
        let q = n / m;
        assert(q <= n / 1) by {
            vstd::arithmetic::div_mod::lemma_div_is_ordered_by_denominator(n as int, 1, m as int);
        }
        if m >= 2 {
            assert(q <= n / 2) by {
                vstd::arithmetic::div_mod::lemma_div_is_ordered_by_denominator(n as int, 2, m as int);
            }
        }
        q as i64
    }
}

/// The quotient `x / y` rounded toward positive infinity (`y > 0`).
pub open spec fn ceil_div_int(x: int, y: int) -> int {
    if x == 0 {
        0
    } else if x > 0 {
        (x - 1) / y + 1
    } else {
        trunc_div(x, y)
    }
}

/// The quotient `x / y` rounded toward negative infinity (`y > 0`).
pub open spec fn floor_div_int(x: int, y: int) -> int {
    if x >= 0 {
        x / y
    } else {
        trunc_div(x + 1, y) - 1
    }
}

/// Rounding toward negative infinity is the mathematical floor.
pub proof fn lemma_floor_div_is_floor(x: int, y: int)
    requires
        y > 0,
    ensures
        floor_div_int(x, y) == x / y,
{
    if x < 0 {
        let q = (-(x + 1)) / y;
        let r = (-(x + 1)) % y;
        vstd::arithmetic::div_mod::lemma_fundamental_div_mod(-(x + 1), y);
        assert(x == (-q - 1) * y + (y - 1 - r)) by (nonlinear_arith)
            requires
                -(x + 1) == y * q + r,
        ;
        vstd::arithmetic::div_mod::lemma_fundamental_div_mod_converse(x, y, -q - 1, y - 1 - r);
    }
}

/// Rounding toward positive infinity is the mathematical ceiling: the least
/// integer `c` with `c * y >= x`.
pub proof fn lemma_ceil_div_is_ceil(x: int, y: int)
    requires
        y > 0,
    ensures
        ceil_div_int(x, y) * y >= x,
        (ceil_div_int(x, y) - 1) * y < x,
{
    let c = ceil_div_int(x, y);
    if x > 0 {
        let q = (x - 1) / y;
        let r = (x - 1) % y;
        vstd::arithmetic::div_mod::lemma_fundamental_div_mod(x - 1, y);
        assert((q + 1) * y >= x && q * y < x) by (nonlinear_arith)
            requires
                x - 1 == y * q + r,
                0 <= r < y,
        ;
    } else if x < 0 {
        let q = (-x) / y;
        let r = (-x) % y;
        vstd::arithmetic::div_mod::lemma_fundamental_div_mod(-x, y);
        assert((-q) * y >= x && (-q - 1) * y < x) by (nonlinear_arith)
            requires
                -x == y * q + r,
                0 <= r < y,
        ;
    }
}

/// `amount` with the given sign: itself when positive, negated otherwise.
pub fn from_sign_and_amount(is_positive: bool, amount: i64) -> (r: i64)
    requires
        !is_positive ==> amount != i64::MIN,
    ensures
        r == if is_positive {
            amount as int
        } else {
            -amount
        },
{
    if is_positive {
        amount
    } else {
        -amount
    }
}

/// `a * b / c` through `i128`, rounded toward zero and truncated to 64 bits.
pub fn mul_div(a: i64, b: u64, c: u64) -> (r: Result<i64, u64>)
    ensures
        c == 0 ==> r == Err::<i64, u64>(EDIVISION_BY_ZERO),
        c != 0 ==> r == Ok::<i64, u64>(trunc_div(a * b, c as int) as i64),
{
    if c == 0 {
        return Err(EDIVISION_BY_ZERO);
    }
    assert(-0x8000_0000_0000_0000_0000_0000_0000_0000int < (a as int) * (b as int)
        < 0x8000_0000_0000_0000_0000_0000_0000_0000int) by (nonlinear_arith)
        requires
            i64::MIN <= a <= i64::MAX,
            0 <= b <= u64::MAX,
    ;
    let p = (a as i128) * (b as i128);
    Ok((p / (c as i128)) as i64)
}

/// `a * b / c` rounded up for non-negative `a`, and, for negative `a`, the
/// negation of `|a| * b / c` rounded down (also a rounding up); the result is
/// truncated to 64 bits.
pub fn ceil_mul_div(a: i64, b: u64, c: u64) -> (r: Result<i64, u64>)
    ensures
        c == 0 ==> r == Err::<i64, u64>(EDIVISION_BY_ZERO),
        c != 0 && a >= 0 ==> r == Ok::<i64, u64>(
            (ceil_div_spec(a * b, c as int) as u64) as i64,
        ),
        c != 0 && a < 0 ==> r == Ok::<i64, u64>(
            (-((((-a) * b) / (c as int)) as u64)) as i64,
        ),
        c != 0 && i64::MIN <= ceil_div_int(a * b, c as int) <= i64::MAX ==> r.unwrap()
            == ceil_div_int(a * b, c as int),
{
    if c == 0 {
        return Err(EDIVISION_BY_ZERO);
    }
    if a >= 0 {
        let result = math::ceil_mul_div_64(a as u64, b, c)?;
        proof {
            lemma_ceil_matches(a as int, b as int, c as int);
        }
        Ok(result as i64)
    } else {
        let abs_a = (-(a as i128)) as u64;
        let result = math::mul_div_64(abs_a, b, c)?;
        proof {
            lemma_ceil_matches(a as int, b as int, c as int);
        }
        Ok((-(result as i128)) as i64)
    }
}

proof fn lemma_ceil_matches(a: int, b: int, c: int)
    requires
        c > 0,
        b >= 0,
    ensures
        a >= 0 ==> ceil_div_int(a * b, c) == ceil_div_spec(a * b, c),
        a < 0 ==> ceil_div_int(a * b, c) == -(((-a) * b) / c),
{
    if a >= 0 {
        assert(a * b >= 0) by (nonlinear_arith)
            requires
                a >= 0,
                b >= 0,
        ;
    } else {
        assert(a * b == -((-a) * b)) by (nonlinear_arith);
        assert((-a) * b >= 0) by (nonlinear_arith)
            requires
                a < 0,
                b >= 0,
        ;
    }
}

/// The smaller of `a` and `b`.
pub fn min(a: i64, b: i64) -> (r: i64)
    ensures
        r == if a < b {
            a
        } else {
            b
        },
{
    if a < b {
        a
    } else {
        b
    }
}

/// The larger of `a` and `b`.
pub fn max(a: i64, b: i64) -> (r: i64)
    ensures
        r == if a > b {
            a
        } else {
            b
        },
{
    if a > b {
        a
    } else {
        b
    }
}

/// The sign (`true` for non-negative) and magnitude of `value`.
pub fn into_sign_and_amount(value: i64) -> (r: (bool, u64))
    requires
        value != i64::MIN,
    ensures
        r.0 == (value >= 0),
        r.1 == if value >= 0 {
            value as int
        } else {
            -value
        },
{
    if value >= 0 {
        (true, value as u64)
    } else {
        (false, (-value) as u64)
    }
}

/// The sign (`true` for non-negative) and magnitude of an `i128`.
pub fn into_sign_and_amount_i128(value: i128) -> (r: (bool, u128))
    requires
        value != i128::MIN,
    ensures
        r.0 == (value >= 0),
        r.1 == if value >= 0 {
            value as int
        } else {
            -value
        },
{
    if value >= 0 {
        (true, value as u128)
    } else {
        (false, (-value) as u128)
    }
}

/// `x / y` rounded toward positive infinity.
pub fn ceil_div(x: i64, y: u64) -> (r: Result<i64, u64>)
    requires
        !(x == i64::MIN && y == u64::MAX),
    ensures
        y == 0 ==> r == Err::<i64, u64>(EDIVISION_BY_ZERO),
        y != 0 && y <= i64::MAX ==> r == Ok::<i64, u64>(ceil_div_int(x as int, y as int) as i64),
        y != 0 && y <= i64::MAX ==> r.unwrap() == ceil_div_int(x as int, y as int),
        y > i64::MAX ==> r is Ok && r.unwrap() == ceil_div_signed(x as int, as_signed(y)),
{
    if y == 0 {
        return Err(EDIVISION_BY_ZERO);
    }
    if y > i64::MAX as u64 {
        let m: u64 = u64::MAX - y + 1;
        if x == 0 {
            return Ok(0);
        } else if x > 0 {
            let q = div_by_negative(x - 1, m);
            assert(q <= 0);
            return Ok(q + 1);
        } else {
            return Ok(div_by_negative(x, m));
        }
    }
    if x == 0 {
        Ok(0)
    } else if x > 0 {
        assert((x - 1) / (y as int) + 1 <= x) by {
            vstd::arithmetic::div_mod::lemma_div_is_ordered_by_denominator((x - 1) as int, 1, y as int);
        }
        Ok((x - 1) / (y as i64) + 1)
    } else {
        assert((-(x as int)) / (y as int) <= -(x as int)) by {
            vstd::arithmetic::div_mod::lemma_div_is_ordered_by_denominator(-(x as int), 1, y as int);
        }
        Ok(x / (y as i64))
    }
}

/// `x / y` rounded toward negative infinity.
pub fn floor_div(x: i64, y: u64) -> (r: Result<i64, u64>)
    ensures
        y == 0 ==> r == Err::<i64, u64>(EDIVISION_BY_ZERO),
        y != 0 && y <= i64::MAX ==> r == Ok::<i64, u64>(floor_div_int(x as int, y as int) as i64),
        y != 0 && y <= i64::MAX ==> r.unwrap() == floor_div_int(x as int, y as int),
        y > i64::MAX ==> r is Ok && r.unwrap() == floor_div_signed(x as int, as_signed(y)),
{
    if y == 0 {
        return Err(EDIVISION_BY_ZERO);
    }
    if y > i64::MAX as u64 {
        let m: u64 = u64::MAX - y + 1;
        if x >= 0 {
            return Ok(div_by_negative(x, m));
        } else {
            let q = div_by_negative(x + 1, m);
            assert(q >= 0);
            return Ok(q - 1);
        }
    }
    let y_i64 = y as i64;
    if x >= 0 {
        Ok(x / y_i64)
    } else {
        assert((-((x + 1) as int)) / (y as int) <= -((x + 1) as int)) by {
            vstd::arithmetic::div_mod::lemma_div_is_ordered_by_denominator(
                -((x + 1) as int),
                1,
                y as int,
            );
        }
        Ok((x + 1) / y_i64 - 1)
    }
}

/// `a / b` rounded up when `ceil` holds and down otherwise.
pub fn div_direction_64(a: i64, b: u64, ceil: bool) -> (r: Result<i64, u64>)
    requires
        !(ceil && a == i64::MIN && b == u64::MAX),
    ensures
        b == 0 ==> r == Err::<i64, u64>(EDIVISION_BY_ZERO),
        b != 0 && b <= i64::MAX && ceil ==> r == Ok::<i64, u64>(ceil_div_int(a as int, b as int) as i64),
        b != 0 && b <= i64::MAX && !ceil ==> r == Ok::<i64, u64>(floor_div_int(a as int, b as int) as i64),
        b != 0 && b <= i64::MAX ==> r.unwrap() == if ceil {
            ceil_div_int(a as int, b as int)
        } else {
            floor_div_int(a as int, b as int)
        },
        b > i64::MAX ==> r is Ok && r.unwrap() == if ceil {
            ceil_div_signed(a as int, as_signed(b))
        } else {
            floor_div_signed(a as int, as_signed(b))
        },
{
    if ceil {
        ceil_div(a, b)
    } else {
        floor_div(a, b)
    }
}

/// The signed number `value` at `vp` rewritten at `rp`: scaled up exactly, or
/// divided down rounding toward positive or negative infinity as `ceil` says.
pub open spec fn convert_decimals_i64_spec(value: int, vp: Precision, rp: Precision, ceil: bool) -> int {
    if vp.decimals == rp.decimals {
        value
    } else if vp.decimals > rp.decimals {
        let d = (vp.multiplier / rp.multiplier) as int;
        if d > i64::MAX {
            if ceil {
                ceil_div_signed(value, as_signed(d as u64))
            } else {
                floor_div_signed(value, as_signed(d as u64))
            }
        } else if ceil {
            ceil_div_int(value, d)
        } else {
            floor_div_int(value, d)
        }
    } else {
        value * (rp.multiplier / vp.multiplier)
    }
}

pub fn convert_decimals(
    value: i64,
    value_precision: &Precision,
    result_precision: &Precision,
    ceil: bool,
) -> (r: Result<i64, u64>)
    requires
        value_precision.wf(),
        result_precision.wf(),
        value_precision.decimals > result_precision.decimals && ceil && value == i64::MIN ==> value_precision.multiplier
            / result_precision.multiplier != u64::MAX,
        value_precision.decimals < result_precision.decimals ==> i64::MIN <= value * (
        result_precision.multiplier / value_precision.multiplier) <= i64::MAX,
    ensures
        r == Ok::<i64, u64>(
            convert_decimals_i64_spec(value as int, *value_precision, *result_precision, ceil)
                as i64,
        ),
        r.unwrap() == convert_decimals_i64_spec(
            value as int,
            *value_precision,
            *result_precision,
            ceil,
        ),
{
    proof {
        math::lemma_pow10_positive(value_precision.decimals as nat);
        math::lemma_pow10_positive(result_precision.decimals as nat);
    }
    if math::get_decimals(value_precision) == math::get_decimals(result_precision) {
        Ok(value)
    } else if math::get_decimals(value_precision) > math::get_decimals(result_precision) {
        proof {
            math::lemma_pow10_monotone(
                result_precision.decimals as nat,
                value_precision.decimals as nat,
            );
            math::lemma_pow10_positive(
                (value_precision.decimals - result_precision.decimals) as nat,
            );
        }
        div_direction_64(
            value,
            math::get_decimals_multiplier(value_precision) / math::get_decimals_multiplier(
                result_precision,
            ),
            ceil,
        )
    } else {
        proof {
            math::lemma_pow10_monotone(
                value_precision.decimals as nat,
                result_precision.decimals as nat,
            );
            math::lemma_pow10_fits_u64(
                (result_precision.decimals - value_precision.decimals) as nat,
            );
        }
        let factor = math::get_decimals_multiplier(result_precision)
            / math::get_decimals_multiplier(value_precision);
        assert(factor == pow10((result_precision.decimals - value_precision.decimals) as nat));
        assert(value != 0 ==> factor <= i64::MAX) by {
            if factor > i64::MAX && value != 0 {
                assert(value * factor <= i64::MAX);
                if value > 0 {
                    assert(value * factor >= factor) by (nonlinear_arith)
                        requires
                            value >= 1,
                            factor >= 0,
                    ;
                } else if value < 0 {
                    assert(value * factor <= -factor) by (nonlinear_arith)
                        requires
                            value <= -1,
                            factor >= 0,
                    ;
                }
            }
        }
        Ok(value * (factor as i64))
    }
}

} // verus!
