//! What rounding means for the numbers: every operation gives the value nearest
//! to the exact result, gives the exact result where there is a value for it, and
//! keeps the order of exact results.

use crate::binary64;
use crate::binary64::{Binary64, INFINITE, ONE_EXPONENT, SIGN};
use vstd::arithmetic::power2::*;
use vstd::prelude::*;

verus! {

/// One, in units.
pub open spec fn one() -> int {
    pow2(ONE_EXPONENT as nat) as int
}

pub open spec fn magnitude(n: int) -> int {
    if n < 0 {
        -n
    } else {
        n
    }
}

/// How far two integers lie apart.
pub open spec fn distance(a: int, b: int) -> int {
    magnitude(a - b)
}

/// Whether a pattern is reached from below by `n / d` units.
spec fn reached(n: int, d: int, r: int) -> bool {
    let low = (binary64::unit(r - 1) + binary64::unit(r)) * d;
    low < 2 * n || (low == 2 * n && r % 2 == 0)
}

proof fn lemma_search(n: int, d: int, r: int)
    requires
        0 <= r <= INFINITE,
        r == INFINITE || !reached(n, d, r + 1),
    ensures
        exists|s: int| binary64::nearest(n, d, s),
    decreases r,
{
    if r == 0 || reached(n, d, r) {
        assert(binary64::nearest(n, d, r));
    } else {
        lemma_search(n, d, r - 1);
    }
}

/// Some pattern is nearest.
proof fn lemma_nearest(n: int, d: int)
    ensures
        binary64::nearest(n, d, binary64::rounded(n, d)),
{
    lemma_search(n, d, INFINITE as int);
}

proof fn lemma_scaled(a: int, b: int, d: int)
    requires
        d > 0,
    ensures
        a < b ==> a * d < b * d,
        a <= b ==> a * d <= b * d,
        a == b <==> a * d == b * d,
{
    assert(a < b ==> a * d < b * d) by (nonlinear_arith)
        requires
            d > 0,
    ;
    assert(b < a ==> b * d < a * d) by (nonlinear_arith)
        requires
            d > 0,
    ;
}

/// Patterns keep the order of the fractions that they are nearest to.
proof fn lemma_rounded_ordered(n: int, d: int, m: int, e: int)
    requires
        d > 0,
        e > 0,
        n * e <= m * d,
    ensures
        binary64::rounded(n, d) <= binary64::rounded(m, e),
{
    lemma_nearest(n, d);
    lemma_nearest(m, e);
    let r = binary64::rounded(n, d);
    let s = binary64::rounded(m, e);
    if s < r {
        let low = binary64::unit(r - 1) + binary64::unit(r);
        let high = binary64::unit(s) + binary64::unit(s + 1);
        if s + 1 < r {
            binary64::lemma_unit_increases(s, r - 1);
            binary64::lemma_unit_increases(s + 1, r);
        }
        assert(high <= low && (s + 1 < r ==> high < low));
        lemma_scaled(low * d, 2 * n, e);
        lemma_scaled(2 * m, high * e, d);
        assert(d * e > 0) by (nonlinear_arith)
            requires
                d > 0,
                e > 0,
        ;
        assert(low * d * e == low * (d * e)) by (nonlinear_arith);
        assert(high * e * d == high * (d * e)) by (nonlinear_arith);
        assert(2 * n * e == 2 * (n * e)) by (nonlinear_arith);
        assert(2 * m * d == 2 * (m * d)) by (nonlinear_arith);
        lemma_scaled(high, low, d * e);
        assert(false);
    }
}

/// No pattern is nearer than the nearest, and of two that are as near it is the
/// even one.
proof fn lemma_rounded_near(n: int, d: int, x: int)
    requires
        d > 0,
        0 <= x <= INFINITE,
    ensures
        ({
            let r = binary64::rounded(n, d);
            let here = distance(binary64::unit(r) * d, n);
            let there = distance(binary64::unit(x) * d, n);
            &&& 0 <= r <= INFINITE
            &&& here <= there
            &&& here == there && x != r ==> r % 2 == 0
        }),
{
    lemma_nearest(n, d);
    let r = binary64::rounded(n, d);
    let ur = binary64::unit(r);
    let ux = binary64::unit(x);
    lemma_scaled(ux, ur, d);
    lemma_scaled(ur, ux, d);
    if x < r {
        let low = binary64::unit(r - 1) + ur;
        binary64::lemma_unit_increases(x, r);
        if x < r - 1 {
            binary64::lemma_unit_increases(x, r - 1);
        }
        lemma_scaled(ux + ur, low, d);
        assert((ux + ur) * d == ux * d + ur * d) by (nonlinear_arith);
    } else if r < x {
        let high = ur + binary64::unit(r + 1);
        binary64::lemma_unit_increases(r, x);
        if r + 1 < x {
            binary64::lemma_unit_increases(r + 1, x);
        }
        lemma_scaled(high, ux + ur, d);
        assert((ux + ur) * d == ux * d + ur * d) by (nonlinear_arith);
    }
}

/// The value nearest to `n / d` units.
pub open spec fn nearest_to(n: int, d: int) -> Binary64 {
    Binary64::signed(n < 0, binary64::rounded(magnitude(n), d))
}

proof fn lemma_signed(negative: bool, mag: int)
    requires
        0 <= mag <= INFINITE,
    ensures
        Binary64::signed(negative, mag).mag() == mag,
        Binary64::signed(negative, mag).negative() == negative,
        !Binary64::signed(negative, mag).nan(),
        Binary64::signed(negative, mag).value() == if negative {
            -binary64::unit(mag)
        } else {
            binary64::unit(mag)
        },
{
}

proof fn lemma_unit_zero()
    ensures
        binary64::unit(0) == 0,
{
    assert((0 - binary64::scale(0) * binary64::BINADE) == 0);
    assert(0 * pow2(0) == 0);
}

pub proof fn lemma_mag_unit(x: Binary64)
    ensures
        binary64::unit(x.mag()) == magnitude(x.value()),
        x.value() < 0 ==> x.negative(),
        x.value() > 0 ==> !x.negative(),
        x.zero() <==> x.value() == 0,
{
    lemma_unit_zero();
    if x.mag() > 0 {
        binary64::lemma_unit_increases(0, x.mag());
    }
}

/// Rounding keeps order.
pub proof fn lemma_ordered(n: int, d: int, m: int, e: int)
    requires
        d > 0,
        e > 0,
        n * e <= m * d,
    ensures
        nearest_to(n, d).value() <= nearest_to(m, e).value(),
        !nearest_to(n, d).nan(),
        !nearest_to(m, e).nan(),
{
    let r = binary64::rounded(magnitude(n), d);
    let s = binary64::rounded(magnitude(m), e);
    lemma_nearest(magnitude(n), d);
    lemma_nearest(magnitude(m), e);
    lemma_signed(n < 0, r);
    lemma_signed(m < 0, s);
    lemma_unit_zero();
    if r > 0 {
        binary64::lemma_unit_increases(0, r);
    }
    if s > 0 {
        binary64::lemma_unit_increases(0, s);
    }
    if n < 0 && m < 0 {
        assert((-m) * d <= (-n) * e) by (nonlinear_arith)
            requires
                n * e <= m * d,
        ;
        lemma_rounded_ordered(-m, e, -n, d);
        if s < r {
            binary64::lemma_unit_increases(s, r);
        }
    } else if n >= 0 && m >= 0 {
        lemma_rounded_ordered(n, d, m, e);
        if r < s {
            binary64::lemma_unit_increases(r, s);
        }
    } else if n >= 0 {
        assert(n * e >= 0 && m * d < 0) by (nonlinear_arith)
            requires
                n >= 0,
                m < 0,
                d > 0,
                e > 0,
        ;
    }
}

/// No value is nearer than the nearest.
proof fn lemma_near(n: int, d: int, x: Binary64)
    requires
        d > 0,
        !x.nan(),
    ensures
        ({
            let r = nearest_to(n, d);
            let here = distance(r.value() * d, n);
            let there = distance(x.value() * d, n);
            &&& !r.nan()
            &&& here <= there
            &&& here == there && x.value() != r.value() ==> r.bits % 2 == 0
        }),
{
    let m = magnitude(n);
    let r = binary64::rounded(m, d);
    lemma_rounded_near(m, d, x.mag());
    lemma_signed(n < 0, r);
    lemma_mag_unit(x);
    lemma_mag_unit(nearest_to(n, d));
    let ux = binary64::unit(x.mag());
    let ur = binary64::unit(r);
    assert((-ur) * d == -(ur * d)) by (nonlinear_arith);
    assert((-ux) * d == -(ux * d)) by (nonlinear_arith);
    assert(ux * d >= 0) by (nonlinear_arith)
        requires
            ux >= 0,
            d > 0,
    ;
    if n == 0 {
        lemma_rounded_near(m, d, 0);
        lemma_unit_zero();
        lemma_scaled(ur, 0, d);
        lemma_scaled(ux, 0, d);
        lemma_scaled(0, ux, d);
    }
    if x.value() != 0 && (x.value() < 0) != (n < 0) {
        // On the other side of zero nothing is nearer than zero itself.
        lemma_rounded_near(m, d, 0);
        lemma_unit_zero();
        lemma_scaled(0, ux, d);
    }
    assert(nearest_to(n, d).bits % 2 == 0 <==> r % 2 == 0);
}

/// A value that is the exact result is the result.
pub proof fn lemma_exact(n: int, d: int, x: Binary64)
    requires
        d > 0,
        !x.nan(),
        x.value() * d == n,
    ensures
        nearest_to(n, d).value() == x.value(),
        !nearest_to(n, d).nan(),
        x.finite() ==> nearest_to(n, d).finite(),
{
    lemma_near(n, d, x);
    lemma_scaled(nearest_to(n, d).value(), x.value(), d);
    lemma_mag_unit(nearest_to(n, d));
    lemma_mag_unit(x);
    binary64::lemma_order(nearest_to(n, d).mag(), x.mag());
}

/// The operations by the exact results that they are nearest to.
pub proof fn lemma_operations(a: Binary64, b: Binary64)
    requires
        a.finite(),
        b.finite(),
    ensures
        a.total(b).value() == nearest_to(a.value() + b.value(), 1).value(),
        a.difference(b).value() == nearest_to(a.value() - b.value(), 1).value(),
        a.product(b).value() == nearest_to(a.value() * b.value(), one()).value(),
        b.value() > 0 ==> a.quotient(b).value() == nearest_to(
            a.value() * one(),
            b.value(),
        ).value(),
        b.value() < 0 ==> a.quotient(b).value() == nearest_to(
            -a.value() * one(),
            -b.value(),
        ).value(),
        !a.total(b).nan(),
        !a.difference(b).nan(),
        !a.product(b).nan(),
        b.value() != 0 ==> !a.quotient(b).nan(),
        one() > 0,
{
    lemma_pow2_pos(ONE_EXPONENT as nat);
    lemma_mag_unit(a);
    lemma_mag_unit(b);
    lemma_unit_zero();
    lemma_sums(a, b);
    let c = b.negation();
    lemma_signed(!b.negative(), b.mag());
    assert(c.value() == -b.value());
    lemma_sums(a, c);
    lemma_products(a, b);
    if b.value() != 0 {
        lemma_quotients(a, b);
    }
}

proof fn lemma_sums(a: Binary64, b: Binary64)
    requires
        a.finite(),
        b.finite(),
    ensures
        a.total(b).value() == nearest_to(a.value() + b.value(), 1).value(),
        !a.total(b).nan(),
{
    let n = a.value() + b.value();
    lemma_nearest(magnitude(n), 1);
    lemma_signed(n < 0, binary64::rounded(magnitude(n), 1));
    lemma_unit_zero();
    if n == 0 {
        lemma_signed(a.negative() && b.negative(), 0);
        binary64::lemma_rounded_exact(1, 0);
    }
}

proof fn lemma_products(a: Binary64, b: Binary64)
    requires
        a.finite(),
        b.finite(),
    ensures
        a.product(b).value() == nearest_to(a.value() * b.value(), one()).value(),
        !a.product(b).nan(),
{
    let n = a.value() * b.value();
    let ua = binary64::unit(a.mag());
    let ub = binary64::unit(b.mag());
    let negative = a.negative() != b.negative();
    lemma_pow2_pos(ONE_EXPONENT as nat);
    lemma_mag_unit(a);
    lemma_mag_unit(b);
    assert(ua * ub == magnitude(n) && (n != 0 ==> (n < 0) == negative)) by (nonlinear_arith)
        requires
            n == a.value() * b.value(),
            a.value() == ua && !a.negative() || a.value() == -ua && a.negative(),
            b.value() == ub && !b.negative() || b.value() == -ub && b.negative(),
            ua >= 0,
            ub >= 0,
            negative == (a.negative() != b.negative()),
    ;
    let r = binary64::rounded(magnitude(n), one());
    lemma_nearest(magnitude(n), one());
    lemma_signed(negative, r);
    lemma_signed(n < 0, r);
    if n == 0 {
        lemma_unit_zero();
        binary64::lemma_rounded_exact(one(), 0);
    }
}

proof fn lemma_quotients(a: Binary64, b: Binary64)
    requires
        a.finite(),
        b.finite(),
        b.value() != 0,
    ensures
        b.value() > 0 ==> a.quotient(b).value() == nearest_to(
            a.value() * one(),
            b.value(),
        ).value(),
        b.value() < 0 ==> a.quotient(b).value() == nearest_to(
            -a.value() * one(),
            -b.value(),
        ).value(),
        !a.quotient(b).nan(),
{
    let d = magnitude(b.value());
    let n = if b.value() > 0 {
        a.value() * one()
    } else {
        -a.value() * one()
    };
    let ua = binary64::unit(a.mag());
    let negative = a.negative() != b.negative();
    lemma_pow2_pos(ONE_EXPONENT as nat);
    lemma_mag_unit(a);
    lemma_mag_unit(b);
    let o = one();
    assert(ua * o == magnitude(n) && (n != 0 ==> (n < 0) == negative)) by (nonlinear_arith)
        requires
            b.value() > 0 && !b.negative() && n == a.value() * o || b.value() < 0 && b.negative()
                && n == -a.value() * o,
            a.value() == ua && !a.negative() || a.value() == -ua && a.negative(),
            ua >= 0,
            o > 0,
            negative == (a.negative() != b.negative()),
    ;
    let r = binary64::rounded(magnitude(n), d);
    lemma_nearest(magnitude(n), d);
    lemma_signed(negative, r);
    lemma_signed(n < 0, r);
    if n == 0 {
        lemma_unit_zero();
        binary64::lemma_rounded_exact(d, 0);
    }
}

/// A sum is as near to the exact sum as any value is; of two that are as near it is the
/// one with the even pattern, as it is of differences, products and quotients.
pub proof fn law_sums_are_nearest(a: Binary64, b: Binary64, x: Binary64)
    requires
        a.finite(),
        b.finite(),
        x.finite(),
    ensures
        ({
            let exact = a.value() + b.value();
            let r = a.total(b);
            &&& distance(r.value(), exact) <= distance(x.value(), exact)
            &&& distance(r.value(), exact) == distance(x.value(), exact) && x.value() != r.value()
                ==> r.bits % 2 == 0
            &&& x.value() == exact ==> r.finite() && r.value() == exact
        }),
{
    let exact = a.value() + b.value();
    lemma_operations(a, b);
    lemma_near(exact, 1, x);
    lemma_same(nearest_to(exact, 1), a.total(b));
    if x.value() == exact {
        lemma_exact(exact, 1, x);
    }
}

/// A difference is as near to the exact difference as any value is.
pub proof fn law_differences_are_nearest(a: Binary64, b: Binary64, x: Binary64)
    requires
        a.finite(),
        b.finite(),
        x.finite(),
    ensures
        ({
            let exact = a.value() - b.value();
            let r = a.difference(b);
            &&& distance(r.value(), exact) <= distance(x.value(), exact)
            &&& distance(r.value(), exact) == distance(x.value(), exact) && x.value() != r.value()
                ==> r.bits % 2 == 0
            &&& x.value() == exact ==> r.finite() && r.value() == exact
        }),
{
    let exact = a.value() - b.value();
    lemma_operations(a, b);
    lemma_near(exact, 1, x);
    lemma_same(nearest_to(exact, 1), a.difference(b));
    if x.value() == exact {
        lemma_exact(exact, 1, x);
    }
}

/// A product is as near to the exact product as any value is.
pub proof fn law_products_are_nearest(a: Binary64, b: Binary64, x: Binary64)
    requires
        a.finite(),
        b.finite(),
        x.finite(),
    ensures
        ({
            let exact = a.value() * b.value();
            let r = a.product(b);
            &&& distance(r.value() * one(), exact) <= distance(x.value() * one(), exact)
            &&& distance(r.value() * one(), exact) == distance(x.value() * one(), exact)
                && x.value() != r.value() ==> r.bits % 2 == 0
            &&& x.value() * one() == exact ==> r.finite() && r.value() == x.value()
        }),
{
    let exact = a.value() * b.value();
    lemma_operations(a, b);
    lemma_near(exact, one(), x);
    lemma_same(nearest_to(exact, one()), a.product(b));
    if x.value() * one() == exact {
        lemma_exact(exact, one(), x);
    }
}

/// A quotient is as near to the exact quotient as any value is.
pub proof fn law_quotients_are_nearest(a: Binary64, b: Binary64, x: Binary64)
    requires
        a.finite(),
        b.finite(),
        x.finite(),
        b.value() != 0,
    ensures
        ({
            let exact = a.value() * one();
            let r = a.quotient(b);
            &&& distance(r.value() * b.value(), exact) <= distance(x.value() * b.value(), exact)
            &&& distance(r.value() * b.value(), exact) == distance(x.value() * b.value(), exact)
                && x.value() != r.value() ==> r.bits % 2 == 0
            &&& x.value() * b.value() == exact ==> r.finite() && r.value() == x.value()
        }),
{
    let exact = a.value() * one();
    let o = one();
    lemma_operations(a, b);
    let r = a.quotient(b);
    if b.value() > 0 {
        lemma_near(exact, b.value(), x);
        lemma_same(nearest_to(exact, b.value()), r);
        if x.value() * b.value() == exact {
            lemma_exact(exact, b.value(), x);
        }
    } else {
        let n = -a.value() * o;
        lemma_near(n, -b.value(), x);
        lemma_same(nearest_to(n, -b.value()), r);
        assert(n == -(a.value() * o)) by (nonlinear_arith)
            requires
                n == -a.value() * o,
        ;
        assert(r.value() * (-b.value()) == -(r.value() * b.value())) by (nonlinear_arith);
        assert(x.value() * (-b.value()) == -(x.value() * b.value())) by (nonlinear_arith);
        if x.value() * b.value() == exact {
            lemma_exact(n, -b.value(), x);
        }
    }
}

/// Defined values that stand for one number are finite together.
pub proof fn lemma_same(a: Binary64, b: Binary64)
    requires
        a.value() == b.value(),
    ensures
        a.mag() == b.mag(),
        a.finite() == b.finite(),
{
    lemma_mag_unit(a);
    lemma_mag_unit(b);
    binary64::lemma_order(a.mag(), b.mag());
}

pub proof fn lemma_negation(x: Binary64)
    requires
        !x.nan(),
    ensures
        x.negation().value() == -x.value(),
        x.negation().finite() == x.finite(),
        !x.negation().nan(),
{
    lemma_signed(!x.negative(), x.mag());
    lemma_mag_unit(x);
}

pub proof fn lemma_infinite_is_not_zero(x: Binary64)
    requires
        x.infinite(),
    ensures
        x.value() != 0,
{
    lemma_unit_zero();
    lemma_mag_unit(x);
}

/// Nothing stands above infinity.
pub proof fn lemma_infinite(x: Binary64, y: Binary64)
    requires
        !x.nan(),
        !y.nan(),
    ensures
        x.infinite() && !x.negative() ==> y.value() <= x.value(),
        x.infinite() && !x.negative() && y.value() == x.value() ==> y.infinite()
            && !y.negative(),
{
    lemma_mag_unit(x);
    lemma_mag_unit(y);
    binary64::lemma_order(x.mag(), y.mag());
    binary64::lemma_order(0, x.mag());
    lemma_unit_zero();
}

/// Sums of numbers that are not negative keep order.
pub proof fn lemma_sums_ordered(a: Binary64, b: Binary64, c: Binary64, d: Binary64)
    requires
        !a.nan(),
        !c.nan(),
        b.finite(),
        d.finite(),
        0 <= a.value() <= c.value(),
        0 <= b.value() <= d.value(),
    ensures
        0 <= a.total(b).value() <= c.total(d).value(),
        !a.total(b).nan(),
        !c.total(d).nan(),
{
    lemma_mag_unit(a);
    lemma_mag_unit(c);
    lemma_infinite(a, c);
    let zero = Binary64::signed(false, 0);
    lemma_signed(false, 0);
    lemma_unit_zero();
    if a.finite() {
        lemma_operations(a, b);
        lemma_ordered(0, 1, a.value() + b.value(), 1);
        lemma_exact(0, 1, zero);
    }
    lemma_infinite(c, a.total(b));
    if c.finite() {
        lemma_order_finite(a, c);
        lemma_operations(c, d);
        lemma_ordered(a.value() + b.value(), 1, c.value() + d.value(), 1);
    }
}

pub proof fn lemma_order_finite(a: Binary64, c: Binary64)
    requires
        !a.nan(),
        c.finite(),
        0 <= a.value() <= c.value(),
    ensures
        a.finite(),
{
    lemma_mag_unit(a);
    lemma_mag_unit(c);
    binary64::lemma_order(c.mag(), a.mag());
}

/// Quotients by one positive number keep order.
pub proof fn lemma_quotients_ordered(a: Binary64, b: Binary64, d: Binary64)
    requires
        !a.nan(),
        !b.nan(),
        d.finite(),
        d.value() > 0,
        0 <= a.value() <= b.value(),
    ensures
        a.quotient(d).value() <= b.quotient(d).value(),
        !a.quotient(d).nan(),
        !b.quotient(d).nan(),
{
    lemma_mag_unit(a);
    lemma_mag_unit(b);
    lemma_mag_unit(d);
    lemma_infinite(a, b);
    if a.finite() {
        lemma_operations(a, d);
    }
    if b.finite() {
        lemma_order_finite(a, b);
        lemma_operations(b, d);
        let o = one();
        let dv = d.value();
        assert((a.value() * o) * dv <= (b.value() * o) * dv) by (nonlinear_arith)
            requires
                a.value() <= b.value(),
                o > 0,
                dv > 0,
        ;
        lemma_ordered(a.value() * o, dv, b.value() * o, dv);
    } else if a.finite() {
        lemma_signed(false, INFINITE as int);
        lemma_infinite(b.quotient(d), a.quotient(d));
    }
}

/// Whether a pattern is reached from below by the square root of `m`.
spec fn root_reached(m: int, r: int) -> bool {
    let low = binary64::unit(r - 1) + binary64::unit(r);
    low * low < 4 * m || (low * low == 4 * m && r % 2 == 0)
}

proof fn lemma_root_search(m: int, r: int)
    requires
        0 <= r <= INFINITE,
        r == INFINITE || !root_reached(m, r + 1),
    ensures
        exists|s: int| binary64::nearest_root(m, s),
    decreases r,
{
    if r == 0 || root_reached(m, r) {
        assert(binary64::nearest_root(m, r));
    } else {
        lemma_root_search(m, r - 1);
    }
}

/// A square root lies where the exact one does among all values: no lower than any
/// value whose square is at most the number, and no higher than any whose square is
/// at least the number. So it is exact where some value is.
pub proof fn law_roots_are_exact_or_next(a: Binary64, x: Binary64)
    requires
        a.finite(),
        x.finite(),
        a.value() >= 0,
        x.value() >= 0,
    ensures
        !a.root().nan(),
        x.value() * x.value() <= a.value() * one() ==> x.value() <= a.root().value(),
        x.value() * x.value() >= a.value() * one() ==> a.root().value() <= x.value(),
{
    let m = a.value() * one();
    lemma_pow2_pos(ONE_EXPONENT as nat);
    lemma_mag_unit(a);
    lemma_mag_unit(x);
    let v = x.value();
    let o = one();
    if a.value() == 0 {
        assert(m == 0) by (nonlinear_arith)
            requires
                m == a.value() * o,
                a.value() == 0,
        ;
        assert(v * v <= 0 ==> v == 0) by (nonlinear_arith)
            requires
                v >= 0,
        ;
    } else {
        lemma_root_search(m, INFINITE as int);
        let r = binary64::rooted(m);
        assert(binary64::nearest_root(m, r));
        lemma_signed(false, r);
        let ur = binary64::unit(r);
        let ux = binary64::unit(x.mag());
        if v * v <= m && r < x.mag() {
            let high = ur + binary64::unit(r + 1);
            binary64::lemma_unit_increases(r, x.mag());
            if r + 1 < x.mag() {
                binary64::lemma_unit_increases(r + 1, x.mag());
            }
            binary64::lemma_unit_next(r);
            assert(high * high < 4 * (ux * ux)) by (nonlinear_arith)
                requires
                    0 <= high < 2 * ux,
            ;
        }
        if v * v >= m && x.mag() < r {
            let low = binary64::unit(r - 1) + ur;
            binary64::lemma_unit_increases(x.mag(), r);
            if x.mag() < r - 1 {
                binary64::lemma_unit_increases(x.mag(), r - 1);
            }
            assert(low * low > 4 * (ux * ux)) by (nonlinear_arith)
                requires
                    low > 2 * ux,
                    ux >= 0,
            ;
        }
        binary64::lemma_order(r, x.mag());
        binary64::lemma_order(x.mag(), r);
    }
}

/// A significand at a power of two has a pattern.
proof fn lemma_pattern(q: int, k: int) -> (x: Binary64)
    requires
        0 < q <= 2 * binary64::BINADE,
        0 <= k <= ONE_EXPONENT,
    ensures
        x.finite(),
        !x.negative(),
        x.value() == q * pow2(k as nat),
    decreases k,
{
    if k == 0 || q >= binary64::BINADE {
        let mag = k * binary64::BINADE + q;
        binary64::lemma_unit_of(k, q);
        let x = Binary64 { bits: mag as u64 };
        x
    } else {
        lemma_pow2_unfold(k as nat);
        assert(2 * q * pow2((k - 1) as nat) == q * pow2(k as nat)) by (nonlinear_arith)
            requires
                pow2(k as nat) == 2 * pow2((k - 1) as nat),
        ;
        lemma_pattern(2 * q, k - 1)
    }
}

/// A multiple of a power of two has a value, where it has no more than fifty-three
/// bits.
pub proof fn lemma_multiple_is_held(q: int, k: int) -> (x: Binary64)
    requires
        0 <= q <= 0x20_0000_0000_0000,
        0 <= k <= ONE_EXPONENT,
    ensures
        x.finite(),
        x.value() == q * pow2(k as nat),
{
    if q == 0 {
        lemma_unit_zero();
        assert(0 * pow2(k as nat) == 0);
        Binary64 { bits: 0 }
    } else {
        lemma_pattern(q, k)
    }
}

/// Integers of up to fifty-three bits are held as they are.
pub proof fn law_integers_are_exact(i: int)
    requires
        -0x20_0000_0000_0000 <= i <= 0x20_0000_0000_0000,
    ensures
        Binary64::of_int(i).finite(),
        Binary64::of_int(i).value() == i * one(),
{
    let m = magnitude(i);
    let o = one();
    assert(-i * o == -(i * o)) by (nonlinear_arith);
    if m > 0 {
        lemma_pow2_pos(ONE_EXPONENT as nat);
        let x = lemma_pattern(m, ONE_EXPONENT as int);
        lemma_exact(m * o, 1, x);
        assert(m * o > 0) by (nonlinear_arith)
            requires
                m > 0,
                x.value() == m * o,
                o > 0,
        ;
        lemma_same(nearest_to(m * o, 1), x);
        lemma_nearest(m * o, 1);
        lemma_signed(false, binary64::rounded(m * o, 1));
        lemma_signed(i < 0, x.mag());
        lemma_mag_unit(x);
        assert(binary64::rounded(m * o, 1) == x.mag());
        assert(Binary64::of_int(i) == Binary64::signed(i < 0, x.mag()));
    } else {
        lemma_unit_zero();
        assert(i * o == 0) by (nonlinear_arith)
            requires
                i == 0,
        ;
        binary64::lemma_rounded_exact(1, 0);
        lemma_signed(false, 0);
    }
}

/// Values that stand for one number other than zero are one.
pub proof fn lemma_same_pattern(a: Binary64, b: Binary64)
    requires
        a.value() == b.value(),
        a.value() != 0,
    ensures
        a == b,
{
    lemma_same(a, b);
    lemma_mag_unit(a);
    lemma_mag_unit(b);
}

/// The lesser of two numbers is one of them and exceeds neither; the greater is
/// one of them and neither exceeds it.
pub proof fn law_lesser_and_greater(a: Binary64, b: Binary64)
    requires
        !a.nan(),
        !b.nan(),
    ensures
        a.lesser(b) == a || a.lesser(b) == b,
        a.lesser(b).value() <= a.value(),
        a.lesser(b).value() <= b.value(),
        a.greater(b) == a || a.greater(b) == b,
        a.greater(b).value() >= a.value(),
        a.greater(b).value() >= b.value(),
{
}

/// Patterns order as the numbers do, a sign turns a number over, and zero stands
/// for nothing.
pub proof fn law_patterns_order_as_numbers(a: Binary64, b: Binary64)
    requires
        !a.nan(),
        !b.nan(),
    ensures
        a.bits < SIGN && b.bits < SIGN ==> (a.bits < b.bits <==> a.value() < b.value()),
        a.bits >= SIGN && b.bits >= SIGN ==> (a.bits < b.bits <==> b.value() < a.value()),
        a.bits < SIGN ==> a.value() >= 0,
        a.bits >= SIGN ==> a.value() <= 0,
        b.bits == a.bits + SIGN ==> b.value() == -a.value(),
        a.bits == 0 ==> a.value() == 0,
{
    lemma_mag_unit(a);
    lemma_mag_unit(b);
    binary64::lemma_order(a.mag(), b.mag());
    binary64::lemma_order(b.mag(), a.mag());
}

/// A result that is zero has a sign like any other: a sum of zero is negative only where
/// both parts are, and products and quotients are negative where the signs differ.
pub proof fn law_zeros_have_signs(a: Binary64, b: Binary64)
    requires
        a.finite(),
        b.finite(),
    ensures
        a.value() + b.value() == 0 ==> a.total(b).value() == 0 && a.total(b).negative() == (
        a.negative() && b.negative()),
        a.product(b).negative() == (a.negative() != b.negative()),
        b.value() != 0 ==> a.quotient(b).negative() == (a.negative() != b.negative()),
        a.negation().negative() != a.negative(),
        a.negation().value() == -a.value(),
        !a.absolute().negative(),
        a.absolute().value() == magnitude(a.value()),
{
    lemma_mag_unit(a);
    lemma_mag_unit(b);
    lemma_unit_zero();
    lemma_pow2_pos(ONE_EXPONENT as nat);
    lemma_signed(a.negative() && b.negative(), 0);
    lemma_signed(!a.negative(), a.mag());
    lemma_signed(false, a.mag());
    lemma_nearest(
        binary64::unit(a.mag()) * binary64::unit(b.mag()),
        pow2(ONE_EXPONENT as nat) as int,
    );
    lemma_nearest(
        binary64::unit(a.mag()) * pow2(ONE_EXPONENT as nat),
        binary64::unit(b.mag()),
    );
}

/// What is no number gives no number, and compares with nothing. Infinities that cannot be
/// weighed against each other give no number, nor does zero times or over infinity its
/// like; a number over zero is infinite, and one over infinity is zero.
pub proof fn law_what_is_no_number(a: Binary64, b: Binary64)
    ensures
        a.nan() || b.nan() ==> a.total(b).nan() && a.difference(b).nan() && a.product(b).nan()
            && a.quotient(b).nan() && !a.less(b) && !a.at_most(b) && !a.equals(b),
        a.infinite() && b.infinite() && a.negative() != b.negative() ==> a.total(b).nan(),
        a.infinite() && b.infinite() && a.negative() == b.negative() ==> a.difference(b).nan()
            && a.total(b) == a,
        a.infinite() && b.zero() ==> a.product(b).nan() && b.product(a).nan(),
        a.infinite() && b.infinite() ==> a.quotient(b).nan(),
        a.zero() && b.zero() ==> a.quotient(b).nan(),
        a.finite() && !a.zero() && b.zero() ==> a.quotient(b).infinite(),
        a.finite() && b.infinite() ==> a.quotient(b).zero() && a.total(b) == b,
        a.infinite() && b.finite() ==> a.total(b) == a && a.quotient(b).infinite(),
        a.infinite() && !b.nan() && !b.zero() ==> a.product(b).infinite(),
        a.negative() && !a.zero() ==> a.root().nan(),
{
    lemma_signed(a.negative() != b.negative(), 0);
    lemma_signed(a.negative() != b.negative(), INFINITE as int);
    if !b.nan() {
        lemma_negation(b);
    }
    assert(b.nan() ==> b.negation().nan());
}

} // verus!
