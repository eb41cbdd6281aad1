//! Fixed-point helpers: multiply-then-divide with a chosen rounding
//! direction, and decimal precisions given as powers of ten.
use vstd::prelude::*;

verus! {

/// Error code for a zero divisor or an out-of-range precision
/// (the invalid-argument category `1 << 16` with reason `4`).
pub const EINVALID_ARGUMENT_4: u64 = 65540;

/// 2^64 and 2^128 as mathematical integers.
pub open spec fn two64() -> int {
    0x1_0000_0000_0000_0000int
}

pub open spec fn two128() -> int {
    0x1_0000_0000_0000_0000_0000_0000_0000_0000int
}

/// Ten to the power `n`.
pub open spec fn pow10(n: nat) -> nat
    decreases n,
{
    if n == 0 {
        1
    } else {
        10 * pow10((n - 1) as nat)
    }
}

/// Floor of `x / y` for `y > 0` on naturals.
pub open spec fn floor_div(x: int, y: int) -> int {
    x / y
}

/// Ceiling of `x / y` for `x >= 0`, `y > 0`.
pub open spec fn ceil_div_spec(x: int, y: int) -> int {
    if x == 0 {
        0
    } else {
        (x - 1) / y + 1
    }
}

/// A precision: a number of decimals and the matching power of ten.
#[derive(Clone, Copy, Debug, PartialEq, Eq, Structural)]
pub struct Precision {
    pub decimals: u8,
    pub multiplier: u64,
}

impl Precision {
    /// A precision is well formed when its multiplier is ten to its decimals.
    pub open spec fn wf(self) -> bool {
        &&& self.decimals <= 19
        &&& self.multiplier == pow10(self.decimals as nat)
    }
}

pub proof fn lemma_pow10_positive(n: nat)
    ensures
        pow10(n) >= 1,
    decreases n,
{
    if n > 0 {
        lemma_pow10_positive((n - 1) as nat);
    }
}

/// Powers of ten grow with the exponent, and each divides the next ones.
pub proof fn lemma_pow10_monotone(m: nat, n: nat)
    requires
        m <= n,
    ensures
        pow10(m) <= pow10(n),
        pow10(n) % pow10(m) == 0,
        pow10(n) / pow10(m) == pow10((n - m) as nat),
    decreases n,
{
    lemma_pow10_positive(m);
    if m == n {
        assert(pow10(0) == 1);
        vstd::arithmetic::div_mod::lemma_div_basics(pow10(n) as int);
        assert(pow10(n) % pow10(m) == 0) by {
            vstd::arithmetic::div_mod::lemma_mod_self_0(pow10(n) as int);
        }
    } else {
        lemma_pow10_monotone(m, (n - 1) as nat);
        let k = (n - 1 - m) as nat;
        assert(pow10((n - m) as nat) == 10 * pow10(k));
        let a = pow10((n - 1) as nat) as int;
        let b = pow10(m) as int;
        let c = pow10(k) as int;
        assert(a == b * c) by {
            vstd::arithmetic::div_mod::lemma_fundamental_div_mod(a, b);
        }
        assert(pow10(n) == 10 * a);
        assert(10 * a == b * (10 * c)) by (nonlinear_arith)
            requires
                a == b * c,
        ;
        vstd::arithmetic::div_mod::lemma_div_multiples_vanish(10 * c, b);
        vstd::arithmetic::div_mod::lemma_mod_multiples_basic(10 * c, b);
        assert(b * (10 * c) == (10 * c) * b) by (nonlinear_arith);
        assert(b <= 10 * a) by (nonlinear_arith)
            requires
                a == b * c,
                c >= 1,
                b >= 1,
        {
        }
        lemma_pow10_positive(k);
    }
}

/// `10^n` fits in a `u64` for `n <= 19`.
pub proof fn lemma_pow10_fits_u64(n: nat)
    requires
        n <= 19,
    ensures
        pow10(n) <= 10_000_000_000_000_000_000,
{
    lemma_pow10_monotone(n, 19);
    reveal_with_fuel(pow10, 20);
}

/// Ceiling division on `u128`; zero stays zero even with a zero divisor,
/// which is an error otherwise.
fn ceil_div_u128(x: u128, y: u128) -> (r: Result<u128, u64>)
    requires
        x == 0 || y != 0,
    ensures
        y == 0 ==> r == Err::<u128, u64>(EINVALID_ARGUMENT_4),
        y != 0 ==> r == Ok::<u128, u64>(ceil_div_spec(x as int, y as int) as u128),
{
    if x == 0 {
        if y == 0 {
            return Err(EINVALID_ARGUMENT_4);
        }
        return Ok(0);
    }
    assert((x - 1) / (y as int) + 1 <= x) by {
        vstd::arithmetic::div_mod::lemma_div_is_ordered_by_denominator((x - 1) as int, 1, y as int);
    }
    Ok((x - 1) / y + 1)
}

/// `ceil(a * b / c)` computed through `u128`.
pub fn ceil_mul_div_64(a: u64, b: u64, c: u64) -> (r: Result<u64, u64>)
    ensures
        c == 0 ==> r == Err::<u64, u64>(EINVALID_ARGUMENT_4),
        c != 0 ==> r == Ok::<u64, u64>(ceil_div_spec(a * b, c as int) as u64),
{
    if c == 0 {
        return Err(EINVALID_ARGUMENT_4);
    }
    assert(a as u128 * b as u128 <= u128::MAX) by (nonlinear_arith)
        requires
            a <= u64::MAX,
            b <= u64::MAX,
    ;
    let numerator = (a as u128) * (b as u128);
    let denominator = c as u128;
    let result = ceil_div_u128(numerator, denominator)?;
    Ok(result as u64)
}


/// Two to the power `n`.
pub open spec fn pow2i(n: nat) -> int
    decreases n,
{
    if n == 0 {
        1
    } else {
        2 * pow2i((n - 1) as nat)
    }
}

proof fn lemma_pow2i_positive(n: nat)
    ensures
        pow2i(n) >= 1,
    decreases n,
{
    if n > 0 {
        lemma_pow2i_positive((n - 1) as nat);
    }
}

proof fn lemma_pow2i_monotone(m: nat, n: nat)
    requires
        m <= n,
    ensures
        pow2i(m) <= pow2i(n),
    decreases n,
{
    if m < n {
        lemma_pow2i_monotone(m, (n - 1) as nat);
        lemma_pow2i_positive((n - 1) as nat);
    }
}

proof fn lemma_pow2i_adds(m: nat, n: nat)
    ensures
        pow2i(m + n) == pow2i(m) * pow2i(n),
    decreases n,
{
    if n > 0 {
        lemma_pow2i_adds(m, (n - 1) as nat);
        assert(pow2i(m + n) == 2 * pow2i((m + n - 1) as nat));
        assert(pow2i(m) * pow2i(n) == 2 * (pow2i(m) * pow2i((n - 1) as nat))) by (nonlinear_arith)
            requires
                pow2i(n) == 2 * pow2i((n - 1) as nat),
        ;
    }
}

proof fn lemma_pow2i_values()
    ensures
        pow2i(64) == two64(),
        pow2i(127) == 0x8000_0000_0000_0000_0000_0000_0000_0000int,
        pow2i(128) == two128(),
{
    reveal_with_fuel(pow2i, 9);
    assert(pow2i(8) == 256);
    lemma_pow2i_adds(8, 8);
    assert(pow2i(16) == 0x1_0000);
    lemma_pow2i_adds(16, 16);
    assert(pow2i(32) == 0x1_0000_0000);
    lemma_pow2i_adds(32, 32);
    assert(pow2i(64) == 0x1_0000_0000_0000_0000);
    lemma_pow2i_adds(64, 64);
    assert(pow2i(128) == 0x1_0000_0000_0000_0000_0000_0000_0000_0000);
    assert(pow2i(128) == 2 * pow2i(127));
}

proof fn lemma_mul_expand(x1: int, x0: int, y1: int, y0: int, t: int)
    ensures
        (x1 * t + x0) * (y1 * t + y0) == (x1 * y1) * (t * t) + (x0 * y1 + x1 * y0) * t + x0 * y0,
{
    let y = y1 * t + y0;
    assert((x1 * t + x0) * y == (x1 * t) * y + x0 * y) by (nonlinear_arith);
    assert((x1 * t) * y == (x1 * t) * (y1 * t) + (x1 * t) * y0) by (nonlinear_arith)
        requires
            y == y1 * t + y0,
    ;
    assert(x0 * y == x0 * (y1 * t) + x0 * y0) by (nonlinear_arith)
        requires
            y == y1 * t + y0,
    ;
    assert((x1 * t) * (y1 * t) == (x1 * y1) * (t * t)) by (nonlinear_arith);
    assert((x1 * t) * y0 == (x1 * y0) * t) by (nonlinear_arith);
    assert(x0 * (y1 * t) == (x0 * y1) * t) by (nonlinear_arith);
    assert((x0 * y1) * t + (x1 * y0) * t == (x0 * y1 + x1 * y0) * t) by (nonlinear_arith);
}

/// The full 256-bit product of two `u128` values, as `(high, low)` halves.
fn mul_u128_wide(a: u128, b: u128) -> (r: (u128, u128))
    ensures
        r.0 * two128() + r.1 == a * b,
{
    let a_lo = a % 0x1_0000_0000_0000_0000u128;
    let a_hi = a / 0x1_0000_0000_0000_0000u128;
    let b_lo = b % 0x1_0000_0000_0000_0000u128;
    let b_hi = b / 0x1_0000_0000_0000_0000u128;
    assert(a_lo < two64() && a_hi < two64() && b_lo < two64() && b_hi < two64());
    assert(a_lo * b_lo <= (two64() - 1) * (two64() - 1)) by (nonlinear_arith)
        requires
            a_lo < two64(),
            b_lo < two64(),
            0 <= a_lo,
            0 <= b_lo,
    ;
    assert(a_lo * b_hi <= (two64() - 1) * (two64() - 1)) by (nonlinear_arith)
        requires
            a_lo < two64(),
            b_hi < two64(),
            0 <= a_lo,
            0 <= b_hi,
    ;
    assert(a_hi * b_lo <= (two64() - 1) * (two64() - 1)) by (nonlinear_arith)
        requires
            a_hi < two64(),
            b_lo < two64(),
            0 <= a_hi,
            0 <= b_lo,
    ;
    assert(a_hi * b_hi <= (two64() - 1) * (two64() - 1)) by (nonlinear_arith)
        requires
            a_hi < two64(),
            b_hi < two64(),
            0 <= a_hi,
            0 <= b_hi,
    ;
    let ll = a_lo * b_lo;
    let lh = a_lo * b_hi;
    let hl = a_hi * b_lo;
    let hh = a_hi * b_hi;
    let mid = lh + ll / 0x1_0000_0000_0000_0000u128;
    let mid2 = mid % 0x1_0000_0000_0000_0000u128 + hl;
    let low = (mid2 % 0x1_0000_0000_0000_0000u128) * 0x1_0000_0000_0000_0000u128 + ll
        % 0x1_0000_0000_0000_0000u128;
    proof {
        let t = two64();
        let ai = a as int;
        let bi = b as int;
        let (ahi, alo, bhi, blo) = (a_hi as int, a_lo as int, b_hi as int, b_lo as int);
        let (hhi, lhi, hli, lli) = (hh as int, lh as int, hl as int, ll as int);
        let (m1, m2) = (mid as int, mid2 as int);
        assert(ai == ahi * t + alo);
        assert(bi == bhi * t + blo);
        lemma_mul_expand(ahi, alo, bhi, blo, t);
        assert(ai * bi == hhi * (t * t) + (lhi + hli) * t + lli);
        assert(lli == (lli / t) * t + lli % t);
        assert(m1 == (m1 / t) * t + m1 % t);
        assert(m2 == (m2 / t) * t + m2 % t);
        assert(m1 == lhi + lli / t);
        assert(m2 == m1 % t + hli);
        assert(t * t == two128());
        assert(ai * bi == (hhi + m1 / t + m2 / t) * two128() + (m2 % t) * t + lli % t)
            by (nonlinear_arith)
            requires
                ai * bi == hhi * (t * t) + (lhi + hli) * t + lli,
                lli == (lli / t) * t + lli % t,
                m1 == lhi + lli / t,
                m1 == (m1 / t) * t + m1 % t,
                m2 == m1 % t + hli,
                m2 == (m2 / t) * t + m2 % t,
                t * t == two128(),
        ;
        assert(0 <= (m2 % t) * t + lli % t) by (nonlinear_arith)
            requires
                t > 0,
        ;
        assert(ai * bi < two128() * two128()) by (nonlinear_arith)
            requires
                0 <= ai < two128(),
                0 <= bi < two128(),
        ;
        assert(hhi + m1 / t + m2 / t < two128()) by (nonlinear_arith)
            requires
                ai * bi == (hhi + m1 / t + m2 / t) * two128() + (m2 % t) * t + lli % t,
                0 <= (m2 % t) * t + lli % t,
                ai * bi < two128() * two128(),
                two128() > 0,
        ;
        assert(low == (m2 % t) * t + lli % t);
    }
    let high = hh + mid / 0x1_0000_0000_0000_0000u128 + mid2 / 0x1_0000_0000_0000_0000u128;
    (high, low)
}

/// The value of the leading bits of `hi * 2^128 + lo`: all of `hi` and the
/// bits of `lo` above position `i`.
spec fn prefix_value(hi: int, lo: int, i: nat) -> int {
    hi * pow2i((128 - i) as nat) + lo / pow2i(i)
}

/// `(hi * 2^128 + lo) / d` by long division over the bits of `lo`, for a
/// quotient that fits in 128 bits (`hi < d`).
fn div_256_by_128(hi: u128, lo: u128, d: u128) -> (q: u128)
    requires
        hi < d,
    ensures
        q == (hi * two128() + lo) / (d as int),
{
    proof {
        lemma_pow2i_values();
    }
    let mut rem: u128 = hi;
    let mut quot: u128 = 0;
    let mut i: u32 = 128;
    let mut mask: u128 = 0x8000_0000_0000_0000_0000_0000_0000_0000u128;
    proof {
        assert((lo as int) / pow2i(128) == 0) by {
            vstd::arithmetic::div_mod::lemma_small_div_converse(lo as int, pow2i(128));
        }
        assert(pow2i(0) == 1);
        assert(prefix_value(hi as int, lo as int, 128) == hi);
    }
    while i > 0
        invariant
            0 <= i <= 128,
            hi < d,
            rem < d,
            i > 0 ==> mask == pow2i((i - 1) as nat),
            quot < pow2i((128 - i) as nat),
            prefix_value(hi as int, lo as int, i as nat) == quot * d + rem,
            pow2i(127) == 0x8000_0000_0000_0000_0000_0000_0000_0000int,
            pow2i(128) == two128(),
        decreases i,
    {
        let ghost old_i = i as nat;
        let ghost old_quot = quot as int;
        let ghost old_rem = rem as int;
        proof {
            lemma_pow2i_positive((i - 1) as nat);
        }
        let t = lo / mask;
        let bit = t % 2;
        proof {
            let ni = (old_i - 1) as nat;
            lemma_pow2i_positive(ni);
            assert(pow2i(old_i) == 2 * pow2i(ni));
            assert((lo as int) / pow2i(old_i) == (t as int) / 2) by {
                vstd::arithmetic::div_mod::lemma_div_denominator(lo as int, pow2i(ni), 2);
                assert(pow2i(ni) * 2 == pow2i(old_i));
            }
            assert(pow2i((128 - ni) as nat) == 2 * pow2i((128 - old_i) as nat));
            assert((t as int) == 2 * ((t as int) / 2) + (bit as int));
            assert((lo as int) / pow2i(ni) == t);
            assert(prefix_value(hi as int, lo as int, ni) == 2 * prefix_value(
                hi as int,
                lo as int,
                old_i,
            ) + bit) by (nonlinear_arith)
                requires
                    prefix_value(hi as int, lo as int, ni) == (hi as int) * pow2i(
                        (128 - ni) as nat,
                    ) + (t as int),
                    prefix_value(hi as int, lo as int, old_i) == (hi as int) * pow2i(
                        (128 - old_i) as nat,
                    ) + (t as int) / 2,
                    pow2i((128 - ni) as nat) == 2 * pow2i((128 - old_i) as nat),
                    (t as int) == 2 * ((t as int) / 2) + (bit as int),
            ;
            lemma_pow2i_monotone((128 - old_i) as nat, 127);
        }
        let room = d - rem;
        if rem + bit >= room {
            rem = rem + bit - room;
            quot = 2 * quot + 1;
        } else {
            rem = 2 * rem + bit;
            quot = 2 * quot;
        }
        proof {
            let ni = (old_i - 1) as nat;
            assert(prefix_value(hi as int, lo as int, ni) == quot * d + rem) by (nonlinear_arith)
                requires
                    prefix_value(hi as int, lo as int, ni) == 2 * prefix_value(
                        hi as int,
                        lo as int,
                        old_i,
                    ) + bit,
                    prefix_value(hi as int, lo as int, old_i) == old_quot * d + old_rem,
                    (quot == 2 * old_quot + 1 && rem == 2 * old_rem + bit - d) || (quot == 2
                        * old_quot && rem == 2 * old_rem + bit),
            ;
            assert(pow2i((128 - ni) as nat) == 2 * pow2i((128 - old_i) as nat));
        }
        i = i - 1;
        if i > 0 {
            proof {
                assert(pow2i((i) as nat) == 2 * pow2i((i - 1) as nat));
            }
            mask = mask / 2;
        }
    }
    proof {
        assert(pow2i(0) == 1);
        assert(prefix_value(hi as int, lo as int, 0) == hi * two128() + lo);
        vstd::arithmetic::div_mod::lemma_fundamental_div_mod_converse(
            hi * two128() + lo,
            d as int,
            quot as int,
            rem as int,
        );
    }
    quot
}

/// `ceil((hi * 2^128 + lo) / d)` for a non-zero value whose ceiling fits in
/// 128 bits.
fn ceil_div_256_wide(hi: u128, lo: u128, d: u128) -> (r: u128)
    requires
        d > 0,
        ceil_div_spec(hi * two128() + lo, d as int) <= u128::MAX,
    ensures
        r == ceil_div_spec(hi * two128() + lo, d as int),
{
    if hi == 0 && lo == 0 {
        return 0;
    }
    let ghost n = hi * two128() + lo;
    let (lo_sub, hi_sub) = if lo == 0 {
        (u128::MAX, hi - 1)
    } else {
        (lo - 1, hi)
    };
    assert(hi_sub * two128() + lo_sub == n - 1);
    assert(hi_sub < d) by {
        if hi_sub >= d {
            assert((n - 1) / (d as int) >= two128()) by {
                assert(n - 1 >= (d as int) * two128()) by (nonlinear_arith)
                    requires
                        n - 1 == hi_sub * two128() + lo_sub,
                        hi_sub >= d,
                        lo_sub >= 0,
                        two128() > 0,
                ;
                vstd::arithmetic::div_mod::lemma_div_is_ordered((d as int) * two128(), n - 1, d as int);
                vstd::arithmetic::div_mod::lemma_div_multiples_vanish(two128(), d as int);
            }
        }
    }
    let q = div_256_by_128(hi_sub, lo_sub, d);
    q + 1
}

/// `ceil(a * b / c)` computed through 256 bits.
fn ceil_mul_div_128(a: u128, b: u128, c: u128) -> (r: Result<u128, u64>)
    requires
        c == 0 || ceil_div_spec(a * b, c as int) <= u128::MAX,
    ensures
        c == 0 ==> r == Err::<u128, u64>(EINVALID_ARGUMENT_4),
        c != 0 ==> r == Ok::<u128, u64>(ceil_div_spec(a * b, c as int) as u128),
{
    if c == 0 {
        return Err(EINVALID_ARGUMENT_4);
    }
    let (hi, lo) = mul_u128_wide(a, b);
    if hi == 0 && lo == 0 {
        return Ok(0);
    }
    Ok(ceil_div_256_wide(hi, lo, c))
}

/// `a * b / c` rounded up when `ceil` holds and down otherwise.
pub fn mul_div_direction_64(a: u64, b: u64, c: u64, ceil: bool) -> (r: Result<u64, u64>)
    ensures
        c == 0 ==> r == Err::<u64, u64>(EINVALID_ARGUMENT_4),
        c != 0 && ceil ==> r == Ok::<u64, u64>(ceil_div_spec(a * b, c as int) as u64),
        c != 0 && !ceil ==> r == Ok::<u64, u64>((a * b / (c as int)) as u64),
{
    if ceil {
        ceil_mul_div_64(a, b, c)
    } else {
        mul_div_64(a, b, c)
    }
}

/// `a * b / c` on `u128`, rounded up when `ceil` holds and down otherwise;
/// the result must fit in 128 bits.
pub fn mul_div_direction_128(a: u128, b: u128, c: u128, ceil: bool) -> (r: Result<u128, u64>)
    requires
        c != 0 && ceil ==> ceil_div_spec(a * b, c as int) <= u128::MAX,
        c != 0 && !ceil ==> a * b / (c as int) <= u128::MAX,
    ensures
        c == 0 ==> r == Err::<u128, u64>(EINVALID_ARGUMENT_4),
        c != 0 && ceil ==> r == Ok::<u128, u64>(ceil_div_spec(a * b, c as int) as u128),
        c != 0 && !ceil ==> r == Ok::<u128, u64>((a * b / (c as int)) as u128),
{
    if ceil {
        ceil_mul_div_128(a, b, c)
    } else {
        mul_div_128(a, b, c)
    }
}

/// `a * b / c` rounded to the nearest integer (halves up), through `u128`;
/// the result is truncated to 64 bits.
pub fn mul_div_round_64(a: u64, b: u64, c: u64) -> (r: Result<u64, u64>)
    ensures
        c == 0 ==> r == Err::<u64, u64>(EINVALID_ARGUMENT_4),
        c != 0 ==> r == Ok::<u64, u64>(((a * b + c / 2) / (c as int)) as u64),
{
    if c == 0 {
        return Err(EINVALID_ARGUMENT_4);
    }
    assert(a as u128 * b as u128 <= 0xffff_ffff_ffff_fffe_0000_0000_0000_0001) by (nonlinear_arith)
        requires
            a <= u64::MAX,
            b <= u64::MAX,
    ;
    let c128 = c as u128;
    let num = (a as u128) * (b as u128) + c128 / 2;
    Ok((num / c128) as u64)
}

/// `min(a * b / c, cap)`, through `u128`.
pub fn mul_div_capped_64(a: u64, b: u64, c: u64, cap: u64) -> (r: Result<u64, u64>)
    ensures
        c == 0 ==> r == Err::<u64, u64>(EINVALID_ARGUMENT_4),
        c != 0 ==> r == Ok::<u64, u64>(
            if a * b / (c as int) > cap {
                cap
            } else {
                (a * b / (c as int)) as u64
            },
        ),
{
    if c == 0 {
        return Err(EINVALID_ARGUMENT_4);
    }
    assert(a as u128 * b as u128 <= u128::MAX) by (nonlinear_arith)
        requires
            a <= u64::MAX,
            b <= u64::MAX,
    ;
    let result = (a as u128) * (b as u128) / (c as u128);
    if result > (cap as u128) {
        Ok(cap)
    } else {
        Ok(result as u64)
    }
}

/// `a * b / c` rounded down, through `u128`; the result is truncated to
/// 64 bits.
pub fn mul_div_64(a: u64, b: u64, c: u64) -> (r: Result<u64, u64>)
    ensures
        c == 0 ==> r == Err::<u64, u64>(EINVALID_ARGUMENT_4),
        c != 0 ==> r == Ok::<u64, u64>((a * b / (c as int)) as u64),
        c != 0 && a * b / (c as int) <= u64::MAX ==> r == Ok::<u64, u64>(
            (a * b / (c as int)) as u64,
        ) && r.unwrap() == a * b / (c as int),
{
    if c == 0 {
        return Err(EINVALID_ARGUMENT_4);
    }
    assert(a as u128 * b as u128 <= u128::MAX) by (nonlinear_arith)
        requires
            a <= u64::MAX,
            b <= u64::MAX,
    ;
    Ok(((a as u128) * (b as u128) / (c as u128)) as u64)
}

/// `a * b / c` rounded down, through 256 bits; the quotient must fit in
/// 128 bits.
pub fn mul_div_128(a: u128, b: u128, c: u128) -> (r: Result<u128, u64>)
    requires
        c == 0 || a * b / (c as int) <= u128::MAX,
    ensures
        c == 0 ==> r == Err::<u128, u64>(EINVALID_ARGUMENT_4),
        c != 0 ==> r == Ok::<u128, u64>((a * b / (c as int)) as u128),
{
    if c == 0 {
        return Err(EINVALID_ARGUMENT_4);
    }
    let (hi, lo) = mul_u128_wide(a, b);
    assert(hi < c) by {
        if hi >= c {
            assert(a * b >= (c as int) * two128()) by (nonlinear_arith)
                requires
                    a * b == hi * two128() + lo,
                    hi >= c,
                    lo >= 0,
                    two128() > 0,
            ;
            vstd::arithmetic::div_mod::lemma_div_is_ordered((c as int) * two128(), a * b, c as int);
            vstd::arithmetic::div_mod::lemma_div_multiples_vanish(two128(), c as int);
        }
    }
    Ok(div_256_by_128(hi, lo, c))
}

/// `a / b` rounded up when `ceil` holds and down otherwise.
pub fn div_direction_64(a: u64, b: u64, ceil: bool) -> (r: Result<u64, u64>)
    ensures
        b == 0 ==> r == Err::<u64, u64>(EINVALID_ARGUMENT_4),
        b != 0 && ceil ==> r == Ok::<u64, u64>(ceil_div_spec(a as int, b as int) as u64),
        b != 0 && !ceil ==> r == Ok::<u64, u64>(a / b),
        b != 0 && ceil ==> r.unwrap() == ceil_div_spec(a as int, b as int),
{
    if b == 0 {
        return Err(EINVALID_ARGUMENT_4);
    }
    if ceil {
        if a == 0 {
            Ok(0)
        } else {
            assert((a - 1) / (b as int) + 1 <= a) by {
                vstd::arithmetic::div_mod::lemma_div_is_ordered_by_denominator((a - 1) as int, 1, b as int);
            }
            Ok((a - 1) / b + 1)
        }
    } else {
        Ok(a / b)
    }
}

/// `a / b` on `u128`, rounded up when `ceil` holds and down otherwise.
pub fn div_direction_128(a: u128, b: u128, ceil: bool) -> (r: Result<u128, u64>)
    ensures
        b == 0 ==> r == Err::<u128, u64>(EINVALID_ARGUMENT_4),
        b != 0 && ceil ==> r == Ok::<u128, u64>(ceil_div_spec(a as int, b as int) as u128),
        b != 0 && !ceil ==> r == Ok::<u128, u64>(a / b),
        b != 0 && ceil ==> r.unwrap() == ceil_div_spec(a as int, b as int),
{
    if b == 0 {
        return Err(EINVALID_ARGUMENT_4);
    }
    if ceil {
        if a == 0 {
            Ok(0)
        } else {
            assert((a - 1) / (b as int) + 1 <= a) by {
                vstd::arithmetic::div_mod::lemma_div_is_ordered_by_denominator((a - 1) as int, 1, b as int);
            }
            Ok((a - 1) / b + 1)
        }
    } else {
        Ok(a / b)
    }
}

/// Ten to the power `decimals`, for at most 19 decimals (the most a `u64`
/// holds).
pub fn decimals_to_multiplier(decimals: u8) -> (r: Result<u64, u64>)
    ensures
        decimals > 19 ==> r == Err::<u64, u64>(EINVALID_ARGUMENT_4),
        decimals <= 19 ==> r == Ok::<u64, u64>(pow10(decimals as nat) as u64),
        decimals <= 19 ==> r.unwrap() == pow10(decimals as nat),
{
    if decimals > 19 {
        return Err(EINVALID_ARGUMENT_4);
    }
    let mut result: u64 = 1;
    let mut i: u8 = 0;
    while i < decimals
        invariant
            i <= decimals <= 19,
            result == pow10(i as nat),
        decreases decimals - i,
    {
        proof {
            lemma_pow10_fits_u64((i + 1) as nat);
        }
        result = result * 10;
        i = i + 1;
    }
    proof {
        lemma_pow10_fits_u64(decimals as nat);
    }
    Ok(result)
}

/// The precision of `decimals` decimals.
pub fn new_precision(decimals: u8) -> (r: Result<Precision, u64>)
    ensures
        decimals > 19 ==> r == Err::<Precision, u64>(EINVALID_ARGUMENT_4),
        decimals <= 19 ==> (r matches Ok(p) && p.decimals == decimals && p.multiplier == pow10(
            decimals as nat,
        ) && p.wf()),
{
    let multiplier = decimals_to_multiplier(decimals)?;
    Ok(Precision { decimals, multiplier })
}

pub fn get_decimals(precision: &Precision) -> (r: u8)
    ensures
        r == precision.decimals,
{
    precision.decimals
}

pub fn get_decimals_multiplier(precision: &Precision) -> (r: u64)
    ensures
        r == precision.multiplier,
{
    precision.multiplier
}

/// The number `value` at `value_precision` rewritten at `result_precision`:
/// scaled up exactly, or divided down rounding up or down as `ceil` says.
pub open spec fn convert_decimals_spec(
    value: int,
    vp: Precision,
    rp: Precision,
    ceil: bool,
) -> int {
    if vp.decimals == rp.decimals {
        value
    } else if vp.decimals > rp.decimals {
        let d = vp.multiplier / rp.multiplier;
        if ceil {
            ceil_div_spec(value, d as int)
        } else {
            value / (d as int)
        }
    } else {
        value * (rp.multiplier / vp.multiplier)
    }
}

pub fn convert_decimals(value: u64, value_precision: &Precision, result_precision: &Precision, ceil: bool) -> (r: Result<u64, u64>)
    requires
        value_precision.wf(),
        result_precision.wf(),
        value_precision.decimals < result_precision.decimals ==> value * (
        result_precision.multiplier / value_precision.multiplier) <= u64::MAX,
    ensures
        r == Ok::<u64, u64>(
            convert_decimals_spec(value as int, *value_precision, *result_precision, ceil) as u64,
        ),
        r.unwrap() == convert_decimals_spec(
            value as int,
            *value_precision,
            *result_precision,
            ceil,
        ),
{
    proof {
        lemma_pow10_positive(value_precision.decimals as nat);
        lemma_pow10_positive(result_precision.decimals as nat);
    }
    if value_precision.decimals == result_precision.decimals {
        Ok(value)
    } else if value_precision.decimals > result_precision.decimals {
        proof {
            lemma_pow10_monotone(result_precision.decimals as nat, value_precision.decimals as nat);
            lemma_pow10_positive((value_precision.decimals - result_precision.decimals) as nat);
        }
        div_direction_64(value, value_precision.multiplier / result_precision.multiplier, ceil)
    } else {
        proof {
            lemma_pow10_monotone(value_precision.decimals as nat, result_precision.decimals as nat);
        }
        Ok(value * (result_precision.multiplier / value_precision.multiplier))
    }
}


pub proof fn lemma_pow2i_adds_pub(m: nat, n: nat)
    ensures
        pow2i(m + n) == pow2i(m) * pow2i(n),
{
    lemma_pow2i_adds(m, n);
}

pub proof fn lemma_pow2i_monotone_pub(m: nat, n: nat)
    requires
        m <= n,
    ensures
        pow2i(m) <= pow2i(n),
{
    lemma_pow2i_monotone(m, n);
}

pub proof fn lemma_pow2i_values_pub()
    ensures
        pow2i(64) == two64(),
        pow2i(128) == two128(),
{
    lemma_pow2i_values();
}

} // verus!
