//! Returns counted in units of the twelfth decimal place.

use super::{FixedCapitalError, Problem};
use crate::binary64::Binary64;
use crate::binary64;
use crate::binary64::{BINADE, ONE_EXPONENT};
use crate::decimal;
use vstd::arithmetic::power::*;
use vstd::arithmetic::power2::*;
use vstd::prelude::*;

verus! {

/// Units in one.
pub const FIXED_SCALE: u64 = 1_000_000_000_000;

/// Where a value is too large to be counted.
pub open spec fn limit() -> Binary64 {
    Binary64::of_int(i64::MAX as int).quotient(Binary64::of_int(FIXED_SCALE as int))
}

/// The value in units, rounded half to even, where it can be counted.
pub open spec fn units(value: Binary64) -> Option<i64> {
    let count = decimal::last_places(value, 12);
    if !value.finite() || limit().at_most(value.absolute()) || count > i64::MAX {
        None
    } else if value.negative() {
        Some((-count) as i64)
    } else {
        Some(count as i64)
    }
}

/// The value nearest to a count of units.
pub open spec fn amount(units: i64) -> Binary64 {
    Binary64::of_int(units as int).quotient(Binary64::of_int(FIXED_SCALE as int))
}

/// A count of units with its decimal point.
pub open spec fn fixed_digits(units: int) -> Seq<char> {
    if units < 0 {
        "-"@ + decimal::pointed(-units, 12)
    } else {
        decimal::pointed(units, 12)
    }
}

/// The value in units, rounded half to even, where it can be counted.
pub fn to_fixed(value: Binary64) -> (r: Result<i64, FixedCapitalError>)
    ensures
        match units(value) {
            Some(count) => r matches Ok(found) && found == count,
            None => r matches Err(error) && error@ == Problem::FixedPointOverflow,
        },
{
    let bound: Binary64 = Binary64::from_i64(i64::MAX).over(Binary64::from_u64(FIXED_SCALE));
    if !value.is_finite() || bound.is_at_most(value.abs()) {
        return Err(FixedCapitalError::FixedPointOverflow);
    }
    match decimal::units(value, 12, i64::MAX as u64) {
        None => Err(FixedCapitalError::FixedPointOverflow),
        Some(count) => if value.to_bits() >= crate::binary64::SIGN {
            Ok(-(count as i64))
        } else {
            Ok(count as i64)
        },
    }
}

/// The value nearest to a count of units.
pub fn from_fixed(value: i64) -> (r: Binary64)
    ensures
        r == amount(value),
{
    Binary64::from_i64(value).over(Binary64::from_u64(FIXED_SCALE))
}

/// A count of units with its decimal point.
pub fn fixed_string(value: i64) -> (r: String)
    ensures
        r@ == fixed_digits(value as int),
{
    let magnitude: u64 = if value < 0 {
        (-(value as i128)) as u64
    } else {
        value as u64
    };
    let mut out: String = String::new();
    if value < 0 {
        out.append("-");
    }
    crate::text::push_numeral(&mut out, (magnitude / FIXED_SCALE) as u128);
    out.append(".");
    crate::text::push_padded(&mut out, (magnitude % FIXED_SCALE) as u128, 12);
    proof {
        reveal(pow);
        reveal_with_fuel(pow, 13);
        assert(pow(10, 12) == 1_000_000_000_000);
        assert(out@ =~= fixed_digits(value as int));
    }
    out
}

/// The pattern of the limit, and its significand.
const LIMIT: u64 = 0x4161_9799_812d_ea11;

const LIMIT_SIGNIFICAND: u64 = 4_951_760_157_141_521;

proof fn lemma_scaled(a: int, b: int, c: int)
    requires
        a < b,
        c > 0,
    ensures
        a * c < b * c,
{
    assert(a * c < b * c) by (nonlinear_arith)
        requires
            a < b,
            c > 0,
    ;
}

proof fn lemma_powers()
    ensures
        pow2(1045) > 0,
        pow2(1061) > 0,
        pow2(1074) > 0,
        pow2(1074) == 0x2000_0000 * pow2(1045),
        pow2(1074) == 0x2000 * pow2(1061),
        pow2(1084) == 0x400 * pow2(1074),
        pow2(1085) == 0x800 * pow2(1074),
        pow(10, 12) == 1_000_000_000_000,
{
    lemma2_to64();
    lemma_pow2_pos(1045);
    lemma_pow2_pos(1061);
    lemma_pow2_pos(1074);
    lemma_pow2_adds(29, 1045);
    lemma_pow2_adds(13, 1061);
    lemma_pow2_adds(10, 1074);
    lemma_pow2_adds(11, 1074);
    reveal(pow);
    reveal_with_fuel(pow, 13);
}

/// The number nearest to the greatest count.
proof fn lemma_greatest()
    ensures
        Binary64::of_int(i64::MAX as int) == (Binary64 { bits: 0x43e0_0000_0000_0000 }),
        binary64::unit(0x43e0_0000_0000_0000) == 0x8000_0000_0000_0000 * pow2(1074),
{
    lemma_powers();
    let one = pow2(1074) as int;
    let r: int = 0x43e0_0000_0000_0000;
    binary64::lemma_unit_of(1085, BINADE as int);
    binary64::lemma_unit_of(1085, BINADE + 1);
    binary64::lemma_unit_of(1084, 2 * BINADE - 1);
    let here = binary64::unit(r);
    let below = binary64::unit(r - 1);
    let above = binary64::unit(r + 1);
    assert(here == 0x8000_0000_0000_0000 * one) by (nonlinear_arith)
        requires
            here == BINADE * (0x800 * one),
            BINADE == 0x0010_0000_0000_0000,
    ;
    assert(below == 0x7fff_ffff_ffff_fc00 * one) by (nonlinear_arith)
        requires
            below == (2 * BINADE - 1) * (0x400 * one),
            BINADE == 0x0010_0000_0000_0000,
    ;
    assert(above == 0x8000_0000_0000_0800 * one) by (nonlinear_arith)
        requires
            above == (BINADE + 1) * (0x800 * one),
            BINADE == 0x0010_0000_0000_0000,
    ;
    let n = (i64::MAX as int) * one;
    assert((below + here) * 1 < 2 * n) by (nonlinear_arith)
        requires
            below == 0x7fff_ffff_ffff_fc00 * one,
            here == 0x8000_0000_0000_0000 * one,
            n == 0x7fff_ffff_ffff_ffff * one,
            one > 0,
    ;
    assert(2 * n < (here + above) * 1) by (nonlinear_arith)
        requires
            above == 0x8000_0000_0000_0800 * one,
            here == 0x8000_0000_0000_0000 * one,
            n == 0x7fff_ffff_ffff_ffff * one,
            one > 0,
    ;
    binary64::lemma_rounded(n, 1, r);
}

/// The number of units in one.
proof fn lemma_scale()
    ensures
        Binary64::of_int(FIXED_SCALE as int) == (Binary64 { bits: 0x426d_1a94_a200_0000 }),
        binary64::unit(0x426d_1a94_a200_0000) == FIXED_SCALE * pow2(1074),
{
    lemma_powers();
    let one = pow2(1074) as int;
    let p = pow2(1061) as int;
    let r: int = 0x426d_1a94_a200_0000;
    binary64::lemma_unit_of(1061, 8_192_000_000_000_000);
    let here = binary64::unit(r);
    assert(here == FIXED_SCALE * one) by (nonlinear_arith)
        requires
            here == 8_192_000_000_000_000 * p,
            one == 0x2000 * p,
            FIXED_SCALE == 1_000_000_000_000,
    ;
    binary64::lemma_rounded_exact(1, r);
    assert(here * 1 == here);
}

proof fn lemma_limit()
    ensures
        limit() == (Binary64 { bits: LIMIT }),
        binary64::unit(LIMIT - 1) == (LIMIT_SIGNIFICAND - 1) * pow2(1045),
{
    lemma_powers();
    lemma_greatest();
    lemma_scale();
    let one = pow2(1074) as int;
    let p = pow2(1045) as int;
    let q = LIMIT_SIGNIFICAND as int;
    binary64::lemma_unit_of(1045, q);
    binary64::lemma_unit_of(1045, q - 1);
    binary64::lemma_unit_of(1045, q + 1);
    let here = binary64::unit(LIMIT as int);
    let below = binary64::unit(LIMIT - 1);
    let above = binary64::unit(LIMIT + 1);
    let n = binary64::unit(0x43e0_0000_0000_0000) * one;
    let d = binary64::unit(0x426d_1a94_a200_0000);
    let c = p * one;
    assert(c > 0) by (nonlinear_arith)
        requires
            c == p * one,
            p > 0,
            one > 0,
    ;
    assert(2 * n == 0x2000_0000_0000_0000_0000_0000 * c) by (nonlinear_arith)
        requires
            n == (0x8000_0000_0000_0000 * one) * one,
            one == 0x2000_0000 * p,
            c == p * one,
    ;
    assert((below + here) * d == ((2 * q - 1) * 1_000_000_000_000) * c) by (nonlinear_arith)
        requires
            below == (q - 1) * p,
            here == q * p,
            d == 1_000_000_000_000 * one,
            c == p * one,
    ;
    assert((here + above) * d == ((2 * q + 1) * 1_000_000_000_000) * c) by (nonlinear_arith)
        requires
            here == q * p,
            above == (q + 1) * p,
            d == 1_000_000_000_000 * one,
            c == p * one,
    ;
    lemma_scaled(
        (2 * q - 1) * 1_000_000_000_000,
        0x2000_0000_0000_0000_0000_0000,
        c,
    );
    lemma_scaled(
        0x2000_0000_0000_0000_0000_0000,
        (2 * q + 1) * 1_000_000_000_000,
        c,
    );
    assert(d > 0) by (nonlinear_arith)
        requires
            d == 1_000_000_000_000 * one,
            one > 0,
    ;
    binary64::lemma_rounded(n, d, LIMIT as int);
}

/// The limit is a number, of more than nine million.
pub proof fn lemma_limit_is_large()
    ensures
        limit().finite(),
        limit().value() > 9_000_000 * pow2(ONE_EXPONENT as nat),
{
    lemma_powers();
    lemma_limit();
    let p = pow2(1045) as int;
    binary64::lemma_unit_increases(LIMIT - 1, LIMIT as int);
    assert((LIMIT_SIGNIFICAND - 1) * p > 9_000_000 * (0x2000_0000 * p)) by (nonlinear_arith)
        requires
            p > 0,
            LIMIT_SIGNIFICAND == 4_951_760_157_141_521,
    ;
}

/// What lies below the limit can be counted, within half a unit.
proof fn lemma_countable(value: Binary64)
    requires
        value.absolute().less(limit()),
    ensures
        value.finite(),
        units(value) is Some,
        0 <= decimal::last_places(value, 12) <= i64::MAX,
        units(value)->0 == if value.negative() {
            -decimal::last_places(value, 12)
        } else {
            decimal::last_places(value, 12)
        },
        2 * (binary64::unit(value.mag()) * 1_000_000_000_000) - pow2(1074) <= 2 * (pow2(1074)
            * decimal::last_places(value, 12)) <= 2 * (binary64::unit(value.mag())
            * 1_000_000_000_000) + pow2(1074),
{
    lemma_powers();
    lemma_limit();
    let one = pow2(1074) as int;
    let p = pow2(1045) as int;
    let u = binary64::unit(value.mag());
    binary64::lemma_order(value.mag(), LIMIT as int);
    if value.mag() < LIMIT - 1 {
        binary64::lemma_unit_increases(value.mag(), LIMIT - 1);
    }
    binary64::lemma_unit_next(value.mag());
    assert(u >= 0);
    let n = u * 1_000_000_000_000;
    let count = decimal::last_places(value, 12);
    decimal::lemma_half_even_near(n, one);
    assert(2 * n + one < 0x1_0000_0000_0000_0000 * one) by (nonlinear_arith)
        requires
            n == u * 1_000_000_000_000,
            u <= 4_951_760_157_141_520 * p,
            one == 0x2000_0000 * p,
            p > 0,
    ;
    assert(count < 0x8000_0000_0000_0000) by (nonlinear_arith)
        requires
            2 * (one * count) < 0x1_0000_0000_0000_0000 * one,
            one > 0,
    ;
}

/// Counting keeps the order, is the same on both sides of zero, and stays within
/// half a unit of the value: below the limit every value is counted so.
/// A value has `2^1074` units of its own in one, a count `10^12`.
pub proof fn law_counting_rounds_to_the_nearest(a: Binary64, b: Binary64)
    requires
        a.absolute().less(limit()),
        b.absolute().less(limit()),
        a.at_most(b),
    ensures
        units(a) is Some,
        units(b) is Some,
        units(a)->0 <= units(b)->0,
        units(a.negation()) == Some((-units(a)->0) as i64),
        -pow2(ONE_EXPONENT as nat) <= 2 * (units(a)->0 * pow2(ONE_EXPONENT as nat)) - 2 * (
        a.value() * FIXED_SCALE) <= pow2(ONE_EXPONENT as nat),
{
    lemma_powers();
    lemma_countable(a);
    lemma_countable(b);
    lemma_countable(a.negation());
    let one = pow2(1074) as int;
    let m = binary64::unit(a.mag());
    let n = binary64::unit(b.mag());
    binary64::lemma_unit_next(a.mag());
    binary64::lemma_unit_next(b.mag());
    let x = decimal::last_places(a, 12);
    assert((-x) * one == -(x * one)) by (nonlinear_arith);
    assert(x * one == one * x) by (nonlinear_arith);
    assert((-m) * 1_000_000_000_000 == -(m * 1_000_000_000_000));
    if a.negative() && b.negative() {
        decimal::lemma_half_even_monotone(
            n * 1_000_000_000_000,
            m * 1_000_000_000_000,
            one,
        );
    } else if !a.negative() && !b.negative() {
        decimal::lemma_half_even_monotone(
            m * 1_000_000_000_000,
            n * 1_000_000_000_000,
            one,
        );
    } else if !a.negative() {
        assert(m == 0 && n == 0);
        let y = decimal::last_places(b, 12);
        assert(x == 0) by (nonlinear_arith)
            requires
                0 <= x,
                2 * (one * x) <= one,
                one > 0,
        ;
        assert(y == 0) by (nonlinear_arith)
            requires
                0 <= y,
                2 * (one * y) <= one,
                one > 0,
        ;
    }
}

/// From the limit on nothing is counted, nor what is no number.
pub proof fn law_nothing_is_counted_beyond_the_limit(value: Binary64)
    requires
        !value.finite() || limit().at_most(value.absolute()),
    ensures
        units(value) is None,
{
}

} // verus!
