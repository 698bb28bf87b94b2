//! IEEE 754 binary64 values held as their bit patterns.
//!
//! Replay has to give the same answer on every machine, so prices and returns
//! are carried as bits and combined with integer arithmetic. Every operation is
//! stated against the exact rational result: the value returned is the one
//! nearest to it, ties going to the even significand.
//!
//! A finite magnitude is measured in units of the smallest positive value,
//! which makes it a natural number. The bit patterns of non-negative values,
//! read as integers, enumerate those magnitudes in increasing order; the
//! pattern of infinity takes the place that the next power of two would have.

use vstd::arithmetic::power2::*;
use vstd::prelude::*;

verus! {

/// Number of significands between two powers of two.
pub const BINADE: u64 = 0x0010_0000_0000_0000;

/// The bit pattern of positive infinity.
pub const INFINITE: u64 = 0x7ff0_0000_0000_0000;

/// The bit that carries the sign.
pub const SIGN: u64 = 0x8000_0000_0000_0000;

/// The bit pattern that arithmetic gives to an undefined result.
pub const UNDEFINED: u64 = 0x7ff8_0000_0000_0000;

/// Exponent of the unit: one is `2^1074` units.
pub const ONE_EXPONENT: u32 = 1074;

/// The power of two by which the significand of pattern `mag` is scaled.
pub open spec fn scale(mag: int) -> int {
    if mag < BINADE {
        0
    } else {
        mag / (BINADE as int) - 1
    }
}

/// The magnitude of the non-negative pattern `mag`, in units.
pub open spec fn unit(mag: int) -> int {
    (mag - scale(mag) * BINADE) * pow2(scale(mag) as nat)
}

/// Whether the magnitude of pattern `r` is nearest to `n / d` units, a value
/// halfway between two neighbours going to the even one.
pub open spec fn nearest(n: int, d: int, r: int) -> bool {
    &&& 0 <= r <= INFINITE
    &&& r > 0 ==> {
        let low = (unit(r - 1) + unit(r)) * d;
        low < 2 * n || (low == 2 * n && r % 2 == 0)
    }
    &&& r < INFINITE ==> {
        let high = (unit(r) + unit(r + 1)) * d;
        2 * n < high || (2 * n == high && r % 2 == 0)
    }
}

/// The pattern nearest to `n / d` units.
pub open spec fn rounded(n: int, d: int) -> int {
    choose|r: int| nearest(n, d, r)
}

/// Whether the magnitude of pattern `r` is nearest to the square root of `m`
/// square units, a value halfway between two neighbours going to the even one.
pub open spec fn nearest_root(m: int, r: int) -> bool {
    &&& 0 <= r <= INFINITE
    &&& r > 0 ==> {
        let low = unit(r - 1) + unit(r);
        low * low < 4 * m || (low * low == 4 * m && r % 2 == 0)
    }
    &&& r < INFINITE ==> {
        let high = unit(r) + unit(r + 1);
        4 * m < high * high || (4 * m == high * high && r % 2 == 0)
    }
}

/// The pattern nearest to the square root of `m` square units.
pub open spec fn rooted(m: int) -> int {
    choose|r: int| nearest_root(m, r)
}

pub proof fn lemma_unit_of(k: int, q: int)
    requires
        0 <= k,
        0 <= q <= 2 * BINADE,
        k == 0 || q >= BINADE,
    ensures
        unit(k * BINADE + q) == q * pow2(k as nat),
{
    let mag = k * BINADE + q;
    if q == 2 * BINADE {
        assert(mag == (k + 2) * BINADE) by (nonlinear_arith)
            requires
                mag == k * BINADE + q,
                q == 2 * BINADE,
        ;
        assert(mag / (BINADE as int) == k + 2);
        assert(scale(mag) == k + 1);
        lemma_pow2_unfold((k + 1) as nat);
        assert(mag - (k + 1) * BINADE == BINADE) by (nonlinear_arith)
            requires
                mag == (k + 2) * BINADE,
        ;
        assert(unit(mag) == BINADE * pow2((k + 1) as nat));
        assert(BINADE * pow2((k + 1) as nat) == q * pow2(k as nat)) by (nonlinear_arith)
            requires
                pow2((k + 1) as nat) == 2 * pow2(k as nat),
                q == 2 * BINADE,
        ;
    } else if q >= BINADE {
        assert(mag == (k + 1) * BINADE + (q - BINADE)) by (nonlinear_arith)
            requires
                mag == k * BINADE + q,
        ;
        assert(mag / (BINADE as int) == k + 1);
        assert(mag >= BINADE) by (nonlinear_arith)
            requires
                mag == k * BINADE + q,
                k >= 0,
                q >= BINADE,
        ;
    }
}

/// Each pattern lies one scaled significand above its predecessor.
pub proof fn lemma_unit_next(mag: int)
    requires
        0 <= mag,
    ensures
        unit(mag + 1) == unit(mag) + pow2(scale(mag) as nat),
        unit(mag) < unit(mag + 1),
        unit(mag) >= 0,
{
    let k = scale(mag);
    let q = mag - k * BINADE;
    assert(0 <= q < 2 * BINADE && (k == 0 || q >= BINADE) && k >= 0);
    lemma_unit_of(k, q);
    lemma_unit_of(k, q + 1);
    lemma_pow2_pos(k as nat);
    assert((q + 1) * pow2(k as nat) == q * pow2(k as nat) + pow2(k as nat)) by (nonlinear_arith);
    assert(q * pow2(k as nat) >= 0) by (nonlinear_arith)
        requires
            q >= 0,
    ;
}

/// Patterns order as the magnitudes that they stand for.
pub proof fn lemma_unit_increases(a: int, b: int)
    requires
        0 <= a < b,
    ensures
        unit(a) < unit(b),
    decreases b - a,
{
    lemma_unit_next(b - 1);
    if a < b - 1 {
        lemma_unit_increases(a, b - 1);
    }
}

/// At most one pattern is nearest.
pub proof fn lemma_nearest_unique(n: int, d: int, r: int, s: int)
    requires
        d > 0,
        nearest(n, d, r),
        nearest(n, d, s),
    ensures
        r == s,
{
    lemma_nearest_ordered(n, d, r, s);
    lemma_nearest_ordered(n, d, s, r);
}

proof fn lemma_nearest_ordered(n: int, d: int, r: int, s: int)
    requires
        d > 0,
        nearest(n, d, r),
        nearest(n, d, s),
    ensures
        s <= r,
{
    let high = unit(r) + unit(r + 1);
    let low = unit(s - 1) + unit(s);
    if r + 1 < s {
        lemma_unit_increases(r, s - 1);
        lemma_unit_increases(r + 1, s);
        assert(high * d < low * d) by (nonlinear_arith)
            requires
                high < low,
                d > 0,
        ;
    }
}

pub proof fn lemma_rounded(n: int, d: int, r: int)
    requires
        d > 0,
        nearest(n, d, r),
    ensures
        rounded(n, d) == r,
{
    lemma_nearest_unique(n, d, r, rounded(n, d));
}

/// A magnitude that has a pattern is rounded to it.
pub proof fn lemma_rounded_exact(d: int, r: int)
    requires
        d > 0,
        0 <= r <= INFINITE,
    ensures
        rounded(unit(r) * d, d) == r,
{
    let n = unit(r) * d;
    if r > 0 {
        lemma_unit_increases(r - 1, r);
        assert((unit(r - 1) + unit(r)) * d < 2 * n) by (nonlinear_arith)
            requires
                n == unit(r) * d,
                unit(r - 1) < unit(r),
                d > 0,
        ;
    }
    lemma_unit_next(r);
    assert(2 * n < (unit(r) + unit(r + 1)) * d) by (nonlinear_arith)
        requires
            n == unit(r) * d,
            unit(r) < unit(r + 1),
            d > 0,
    ;
    lemma_rounded(n, d, r);
}


/// Scaling that keeps every exponent of an intermediate result non-negative.
const BIAS: u32 = 4096;

/// How the exact value `n / d` lies between `q` and `q + 1` steps of
/// `2^k` units: `guard` tells whether it reaches the middle, `rest` whether it
/// lies strictly above the lower end or the middle.
spec fn placed(n: int, d: int, q: int, k: int, guard: bool, rest: bool) -> bool {
    let whole = n * pow2(BIAS as nat);
    let step = pow2((k + BIAS) as nat) * d;
    match (guard, rest) {
        (false, false) => whole == q * step,
        (false, true) => q * step < whole && 2 * whole < (2 * q + 1) * step,
        (true, false) => 2 * whole == (2 * q + 1) * step,
        (true, true) => (2 * q + 1) * step < 2 * whole && whole < (q + 1) * step,
    }
}

/// How the exact value `n / d` starts out: `q` steps of `2^k` units, and where
/// `sticky` a part of a step more.
spec fn measured(n: int, d: int, q: int, k: int, sticky: bool) -> bool {
    let whole = n * pow2(BIAS as nat);
    let step = pow2((k + BIAS) as nat) * d;
    if sticky {
        q * step < whole < (q + 1) * step
    } else {
        whole == q * step
    }
}

proof fn lemma_halve(n: int, d: int, q: int, k: int, guard: bool, rest: bool)
    requires
        d > 0,
        q >= 0,
        k + BIAS >= 0,
        placed(n, d, q, k, guard, rest),
    ensures
        placed(n, d, q / 2, k + 1, q % 2 == 1, guard || rest),
{
    let whole = n * pow2(BIAS as nat);
    let step = pow2((k + BIAS) as nat) * d;
    let next = pow2((k + 1 + BIAS) as nat) * d;
    lemma_pow2_unfold((k + 1 + BIAS) as nat);
    lemma_pow2_pos((k + BIAS) as nat);
    assert(next == 2 * step && step > 0) by (nonlinear_arith)
        requires
            next == pow2((k + 1 + BIAS) as nat) * d,
            step == pow2((k + BIAS) as nat) * d,
            pow2((k + 1 + BIAS) as nat) == 2 * pow2((k + BIAS) as nat),
            pow2((k + BIAS) as nat) > 0,
            d > 0,
    ;
    let h = q / 2;
    let b = q % 2;
    assert(q == 2 * h + b);
    assert(q * step == h * next + b * step) by (nonlinear_arith)
        requires
            q == 2 * h + b,
            next == 2 * step,
    ;
    assert((2 * q + 1) * step == 2 * (h * next) + 2 * (b * step) + step) by (nonlinear_arith)
        requires
            q == 2 * h + b,
            next == 2 * step,
    ;
    assert((q + 1) * step == h * next + b * step + step) by (nonlinear_arith)
        requires
            q == 2 * h + b,
            next == 2 * step,
    ;
    assert((2 * h + 1) * next == 2 * (h * next) + next) by (nonlinear_arith);
    assert((h + 1) * next == h * next + next) by (nonlinear_arith);
    assert(b * step == if b == 1 { step } else { 0 });
}

proof fn lemma_halve_first(n: int, d: int, q: int, k: int, sticky: bool)
    requires
        d > 0,
        q >= 0,
        k + BIAS >= 0,
        measured(n, d, q, k, sticky),
    ensures
        placed(n, d, q / 2, k + 1, q % 2 == 1, sticky),
{
    let whole = n * pow2(BIAS as nat);
    let step = pow2((k + BIAS) as nat) * d;
    let next = pow2((k + 1 + BIAS) as nat) * d;
    lemma_pow2_unfold((k + 1 + BIAS) as nat);
    lemma_pow2_pos((k + BIAS) as nat);
    assert(next == 2 * step && step > 0) by (nonlinear_arith)
        requires
            next == pow2((k + 1 + BIAS) as nat) * d,
            step == pow2((k + BIAS) as nat) * d,
            pow2((k + 1 + BIAS) as nat) == 2 * pow2((k + BIAS) as nat),
            pow2((k + BIAS) as nat) > 0,
            d > 0,
    ;
    let h = q / 2;
    let b = q % 2;
    assert(q == 2 * h + b);
    assert(q * step == h * next + b * step) by (nonlinear_arith)
        requires
            q == 2 * h + b,
            next == 2 * step,
    ;
    assert((q + 1) * step == h * next + b * step + step) by (nonlinear_arith)
        requires
            q == 2 * h + b,
            next == 2 * step,
    ;
    assert((2 * h + 1) * next == 2 * (h * next) + next) by (nonlinear_arith);
    assert((h + 1) * next == h * next + next) by (nonlinear_arith);
    assert(b * step == if b == 1 { step } else { 0 });
}

proof fn lemma_double(n: int, d: int, q: int, k: int)
    requires
        d > 0,
        k + BIAS > 0,
        placed(n, d, q, k, false, false),
    ensures
        placed(n, d, 2 * q, k - 1, false, false),
{
    lemma_pow2_unfold((k + BIAS) as nat);
    let step = pow2((k + BIAS) as nat) * d;
    let next = pow2((k - 1 + BIAS) as nat) * d;
    assert(q * step == (2 * q) * next) by (nonlinear_arith)
        requires
            next == pow2((k - 1 + BIAS) as nat) * d,
            step == pow2((k + BIAS) as nat) * d,
            pow2((k + BIAS) as nat) == 2 * pow2((k - 1 + BIAS) as nat),
    ;
}

/// What the place of the exact value says about its neighbours.
proof fn lemma_placed_units(n: int, d: int, q: int, k: int, guard: bool, rest: bool)
    requires
        d > 0,
        0 <= k,
        0 <= q < 2 * BINADE,
        k == 0 || q >= BINADE,
        placed(n, d, q, k, guard, rest),
    ensures
        ({
            let mag = k * BINADE + q;
            let lower = unit(mag) * d;
            let upper = unit(mag + 1) * d;
            &&& lower <= n < upper
            &&& match (guard, rest) {
                (false, _) => 2 * n < lower + upper,
                (true, false) => 2 * n == lower + upper,
                (true, true) => 2 * n > lower + upper,
            }
        }),
{
    let p = pow2(k as nat) as int;
    let c = pow2(BIAS as nat) as int;
    lemma_pow2_adds(k as nat, BIAS as nat);
    lemma_pow2_pos(k as nat);
    lemma_pow2_pos(BIAS as nat);
    lemma_unit_of(k, q);
    lemma_unit_of(k, q + 1);
    let mag = k * BINADE + q;
    let lower = unit(mag) * d;
    let upper = unit(mag + 1) * d;
    let step = pow2((k + BIAS) as nat) * d;
    assert(pow2((k + BIAS) as nat) == p * c);
    assert(q * step == lower * c) by (nonlinear_arith)
        requires
            lower == (q * p) * d,
            step == (p * c) * d,
    ;
    assert((q + 1) * step == upper * c) by (nonlinear_arith)
        requires
            upper == ((q + 1) * p) * d,
            step == (p * c) * d,
    ;
    assert((2 * q + 1) * step == (lower + upper) * c) by (nonlinear_arith)
        requires
            lower == (q * p) * d,
            upper == ((q + 1) * p) * d,
            step == (p * c) * d,
    ;
    assert(step > 0) by (nonlinear_arith)
        requires
            step == (p * c) * d,
            p > 0,
            c > 0,
            d > 0,
    ;
    assert((2 * q + 1) * step == 2 * (q * step) + step) by (nonlinear_arith);
    assert((q + 1) * step == q * step + step) by (nonlinear_arith);
    assert(2 * (n * c) == (2 * n) * c) by (nonlinear_arith);
    let m = lower + upper;
    lemma_cancel(lower, n, c);
    lemma_cancel(n, upper, c);
    lemma_cancel(2 * n, m, c);
    lemma_cancel(m, 2 * n, c);
}

/// A positive common factor does not change an order.
proof fn lemma_cancel(a: int, b: int, c: int)
    requires
        c > 0,
    ensures
        a * c < b * c <==> a < b,
        a * c <= b * c <==> a <= b,
        a * c == b * c <==> a == b,
{
    assert(a < b ==> a * c < b * c) by (nonlinear_arith)
        requires
            c > 0,
    ;
    assert(b < a ==> b * c < a * c) by (nonlinear_arith)
        requires
            c > 0,
    ;
}

/// Rounds `mant` steps of `2^exp` units, and where `sticky` a part of a step
/// more, to the nearest pattern.
fn round(mant: u128, exp: i32, sticky: bool, Ghost(n): Ghost<int>, Ghost(d): Ghost<int>) -> (r: u64)
    requires
        d > 0,
        -4000 <= exp <= 4000,
        mant < 0x8000_0000_0000_0000_0000_0000_0000_0000,
        sticky ==> mant >= 4 * BINADE,
        measured(n, d, mant as int, exp as int, sticky),
    ensures
        nearest(n, d, r as int),
        r == rounded(n, d),
{
    let mut q: u128 = mant;
    let mut k: i32 = exp;
    let mut guard: bool = false;
    let mut rest: bool = false;
    if sticky {
        proof {
            lemma_halve_first(n, d, q as int, k as int, sticky);
        }
        guard = q % 2 == 1;
        rest = true;
        q = q / 2;
        k = k + 1;
    }
    while q >= 0x20_0000_0000_0000 || k < 0
        invariant
            d > 0,
            -4000 <= k <= 4001 + 128,
            q < 0x8000_0000_0000_0000_0000_0000_0000_0000,
            placed(n, d, q as int, k as int, guard, rest),
            k > 0 && q < BINADE ==> !guard && !rest,
            k > 4001 ==> q * pow2((k - 4001) as nat) < 0x8000_0000_0000_0000_0000_0000_0000_0000,
        decreases (if k < 0 { -k } else { 0 }), q,
    {
        proof {
            lemma_halve(n, d, q as int, k as int, guard, rest);
            if k + 1 > 4001 {
                lemma_pow2_unfold((k + 1 - 4001) as nat);
                lemma_pow2_pos((k + 1 - 4001) as nat);
                if k == 4001 {
                    lemma2_to64();
                }
                let p = pow2((k - 4001) as nat) as int;
                let p1 = pow2((k + 1 - 4001) as nat) as int;
                assert(p1 == 2 * p);
                let half = (q / 2) as int;
                assert(half * p1 <= q * p) by (nonlinear_arith)
                    requires
                        2 * half <= q,
                        p1 == 2 * p,
                        p >= 0,
                ;
                if k == 4001 {
                    assert(q * p == q) by (nonlinear_arith)
                        requires
                            p == 1,
                    ;
                }
                assert(half * p1 < 0x8000_0000_0000_0000_0000_0000_0000_0000);
                assert(k + 1 - 4001 <= 128) by {
                    if k - 4001 >= 128 {
                        lemma_pow2_strictly_increases(127, (k - 4001) as nat);
                        lemma_pow2_adds(63, 64);
                        lemma2_to64_rest();
                        assert(q * p >= p) by (nonlinear_arith)
                            requires
                                q >= 1,
                                p >= 0,
                        ;
                        assert(pow2(63) * pow2(64) == 0x8000_0000_0000_0000_0000_0000_0000_0000);
                    }
                }
            }
        }
        rest = guard || rest;
        guard = q % 2 == 1;
        q = q / 2;
        k = k + 1;
    }
    while q < 0x10_0000_0000_0000 && k > 0
        invariant
            d > 0,
            0 <= k <= 4200,
            q < 2 * BINADE,
            placed(n, d, q as int, k as int, guard, rest),
            k > 0 && q < BINADE ==> !guard && !rest,
        decreases k,
    {
        proof {
            lemma_double(n, d, q as int, k as int);
        }
        q = 2 * q;
        k = k - 1;
    }
    proof {
        lemma_placed_units(n, d, q as int, k as int, guard, rest);
    }
    let ghost mag = k * BINADE + q;
    if k >= 2046 {
        proof {
            lemma_overflow(n, d, k as int, q as int);
            lemma_rounded(n, d, INFINITE as int);
        }
        return INFINITE;
    }
    let base: u64 = (k as u64) * BINADE + q as u64;
    proof {
        assert(base == mag);
        assert(base % 2 == q % 2);
        lemma_unit_next(mag);
        lemma_between(n, d, mag);
    }
    let r: u64 = if guard && (rest || q % 2 == 1) {
        base + 1
    } else {
        base
    };
    proof {
        let half_low = (unit(mag) + unit(mag + 1)) * d;
        assert(half_low == unit(mag) * d + unit(mag + 1) * d) by (nonlinear_arith)
            requires
                half_low == (unit(mag) + unit(mag + 1)) * d,
        ;
        assert(nearest(n, d, r as int));
        lemma_rounded(n, d, r as int);
    }
    r
}

proof fn lemma_overflow(n: int, d: int, k: int, q: int)
    requires
        d > 0,
        k >= 2046,
        q >= BINADE,
        q < 2 * BINADE,
        unit(k * BINADE + q) * d <= n,
    ensures
        nearest(n, d, INFINITE as int),
{
    let mag = k * BINADE + q;
    assert(mag >= INFINITE);
    if mag > INFINITE {
        lemma_unit_increases(INFINITE as int, mag);
    }
    lemma_unit_increases(INFINITE - 1, INFINITE as int);
    assert((unit(INFINITE - 1) + unit(INFINITE as int)) * d < 2 * n) by (nonlinear_arith)
        requires
            unit(INFINITE - 1) < unit(INFINITE as int),
            unit(INFINITE as int) <= unit(mag),
            unit(mag) * d <= n,
            d > 0,
    ;
}

/// A value between two neighbours lies beyond the midpoints on their far sides.
proof fn lemma_between(n: int, d: int, mag: int)
    requires
        d > 0,
        mag >= 0,
        unit(mag) * d <= n < unit(mag + 1) * d,
    ensures
        mag > 0 ==> (unit(mag - 1) + unit(mag)) * d < 2 * n,
        2 * n < (unit(mag + 1) + unit(mag + 2)) * d,
{
    if mag > 0 {
        lemma_unit_next(mag - 1);
        assert((unit(mag - 1) + unit(mag)) * d < 2 * n) by (nonlinear_arith)
            requires
                unit(mag - 1) < unit(mag),
                unit(mag) * d <= n,
                d > 0,
        ;
    }
    lemma_unit_next(mag + 1);
    assert(2 * n < (unit(mag + 1) + unit(mag + 2)) * d) by (nonlinear_arith)
        requires
            unit(mag + 1) < unit(mag + 2),
            n < unit(mag + 1) * d,
            d > 0,
    ;
}


/// The significand and scale of pattern `mag`.
pub fn parts(mag: u64) -> (r: (u64, i32))
    requires
        mag < INFINITE,
    ensures
        r.0 < 2 * BINADE,
        0 <= r.1 <= 2045,
        r.1 == 0 || r.0 >= BINADE,
        r.1 == scale(mag as int),
        mag == r.1 * BINADE + r.0,
        unit(mag as int) == r.0 * pow2(r.1 as nat),
{
    if mag < BINADE {
        (mag, 0)
    } else {
        let k: u64 = mag / BINADE - 1;
        proof {
            lemma_unit_of(k as int, mag - k * BINADE);
        }
        (mag - k * BINADE, k as i32)
    }
}

/// `q` doubled `s` times.
fn doubled(q: u64, s: i32) -> (r: u128)
    requires
        0 <= s <= 64,
        q < 2 * BINADE,
    ensures
        r == q * pow2(s as nat),
        r <= q * 0x1_0000_0000_0000_0000,
{
    let mut r: u128 = q as u128;
    let mut i: i32 = 0;
    proof {
        lemma2_to64();
        assert(q * pow2(0) == q) by (nonlinear_arith)
            requires
                pow2(0) == 1,
        ;
    }
    while i < s
        invariant
            0 <= i <= s <= 64,
            q < 2 * BINADE,
            r == q * pow2(i as nat),
            pow2(i as nat) <= 0x1_0000_0000_0000_0000,
        decreases s - i,
    {
        proof {
            lemma_pow2_unfold((i + 1) as nat);
            lemma2_to64();
            lemma2_to64_rest();
            if i + 1 < 64 {
                lemma_pow2_strictly_increases((i + 1) as nat, 64);
            }
            let p = pow2(i as nat) as int;
            let p1 = pow2((i + 1) as nat) as int;
            assert(2 * (q * p) == q * p1) by (nonlinear_arith)
                requires
                    p1 == 2 * p,
            ;
            assert(q * p1 <= 0x20_0000_0000_0000 * 0x1_0000_0000_0000_0000) by (nonlinear_arith)
                requires
                    0 <= q < 0x20_0000_0000_0000,
                    0 <= p1 <= 0x1_0000_0000_0000_0000,
            ;
        }
        r = 2 * r;
        i = i + 1;
    }
    proof {
        let p = pow2(s as nat) as int;
        assert(q * p <= q * 0x1_0000_0000_0000_0000) by (nonlinear_arith)
            requires
                0 <= p <= 0x1_0000_0000_0000_0000,
                q >= 0,
        ;
    }
    r
}

/// The pattern nearest to the product of two magnitudes.
fn multiply(a: u64, b: u64) -> (r: u64)
    requires
        a < INFINITE,
        b < INFINITE,
    ensures
        r == rounded(unit(a as int) * unit(b as int), pow2(ONE_EXPONENT as nat) as int),
        r <= INFINITE,
{
    let (qa, ka): (u64, i32) = parts(a);
    let (qb, kb): (u64, i32) = parts(b);
    proof {
        assert(qa * qb < 0x8000_0000_0000_0000_0000_0000_0000_0000) by (nonlinear_arith)
            requires
                0 <= qa < 0x20_0000_0000_0000,
                0 <= qb < 0x20_0000_0000_0000,
        ;
    }
    let mant: u128 = (qa as u128) * (qb as u128);
    let exp: i32 = ka + kb - 1074;
    let ghost n = unit(a as int) * unit(b as int);
    let ghost d = pow2(ONE_EXPONENT as nat) as int;
    proof {
        lemma_pow2_pos(ONE_EXPONENT as nat);
        let pa = pow2(ka as nat) as int;
        let pb = pow2(kb as nat) as int;
        let c = pow2(BIAS as nat) as int;
        let e = pow2((exp + BIAS) as nat) as int;
        lemma_pow2_adds((exp + BIAS) as nat, ONE_EXPONENT as nat);
        lemma_pow2_adds(ka as nat, kb as nat);
        lemma_pow2_adds((ka + kb) as nat, BIAS as nat);
        assert(e * d == pa * pb * c);
        assert(n * c == mant * (e * d)) by (nonlinear_arith)
            requires
                n == (qa * pa) * (qb * pb),
                mant == qa * qb,
                e * d == pa * pb * c,
        ;
    }
    round(mant, exp, false, Ghost(n), Ghost(d))
}

/// The pattern nearest to the quotient of two magnitudes.
fn divide(a: u64, b: u64) -> (r: u64)
    requires
        0 < a < INFINITE,
        0 < b < INFINITE,
    ensures
        r == rounded(unit(a as int) * pow2(ONE_EXPONENT as nat), unit(b as int)),
        r <= INFINITE,
{
    let (qa0, ka0): (u64, i32) = parts(a);
    let (qb, kb): (u64, i32) = parts(b);
    let mut qa: u64 = qa0;
    let mut ka: i32 = ka0;
    let ghost c = pow2(BIAS as nat) as int;
    proof {
        lemma_pow2_adds(ka as nat, BIAS as nat);
        lemma_unit_increases(0, a as int);
        lemma_unit_increases(0, b as int);
        lemma_unit_of(0, 0);
        let pa = pow2(ka as nat) as int;
        assert((qa * pa) * c == qa * (pa * c)) by (nonlinear_arith);
        let pb = pow2(kb as nat) as int;
        assert(qb > 0) by (nonlinear_arith)
            requires
                qb * pb > 0,
                qb >= 0,
                pb >= 0,
        ;
        assert(qa > 0) by (nonlinear_arith)
            requires
                qa * pa > 0,
                qa >= 0,
                pa >= 0,
        ;
    }
    proof {
        lemma2_to64();
    }
    while qa < BINADE
        invariant
            0 < qa < 2 * BINADE,
            -60 <= ka <= 2045,
            qa < BINADE ==> ka <= 0,
            ka <= 0 ==> qa >= pow2((-ka) as nat) as int,
            c == pow2(BIAS as nat),
            unit(a as int) * c == qa * pow2((ka + BIAS) as nat),
        decreases 2 * BINADE - qa,
    {
        proof {
            lemma_pow2_unfold((ka + BIAS) as nat);
            lemma_pow2_unfold((1 - ka) as nat);
            lemma2_to64();
            if -ka >= 59 {
                lemma2_to64_rest();
                if -ka > 59 {
                    lemma_pow2_strictly_increases(59, (-ka) as nat);
                }
            }
            let p = pow2((ka + BIAS) as nat) as int;
            let p1 = pow2((ka - 1 + BIAS) as nat) as int;
            assert(qa * p == (2 * qa) * p1) by (nonlinear_arith)
                requires
                    p == 2 * p1,
            ;
        }
        qa = 2 * qa;
        ka = ka - 1;
    }
    let top: u128 = doubled(qa, 64);
    let mant: u128 = top / (qb as u128);
    let sticky: bool = top % (qb as u128) != 0;
    let exp: i32 = ka - kb + 1010;
    let ghost n = unit(a as int) * pow2(ONE_EXPONENT as nat);
    let ghost d = unit(b as int);
    proof {
        lemma2_to64();
        let rem = (top % (qb as u128)) as int;
        let pb = pow2(kb as nat) as int;
        let one = pow2(ONE_EXPONENT as nat) as int;
        let step = pow2((exp + BIAS) as nat) * d;
        let grain = pow2((ka + 1010 + BIAS) as nat) as int;
        lemma_pow2_pos((ka + 1010 + BIAS) as nat);
        lemma_pow2_adds((exp + BIAS) as nat, kb as nat);
        assert(step == qb * grain) by (nonlinear_arith)
            requires
                step == pow2((exp + BIAS) as nat) * d,
                d == qb * pb,
                grain == pow2((exp + BIAS) as nat) * pb,
        ;
        lemma_pow2_adds((ka + BIAS) as nat, ONE_EXPONENT as nat);
        lemma_pow2_adds((ka + 1010 + BIAS) as nat, 64);
        let low = pow2((ka + BIAS) as nat) as int;
        assert(low * one == grain * 0x1_0000_0000_0000_0000);
        assert(n * c == top * grain) by (nonlinear_arith)
            requires
                n == unit(a as int) * one,
                unit(a as int) * c == qa * low,
                low * one == grain * 0x1_0000_0000_0000_0000,
                top == qa * 0x1_0000_0000_0000_0000,
        ;
        assert(top == mant * qb + rem && 0 <= rem < qb) by (nonlinear_arith)
            requires
                mant == top / (qb as u128),
                rem == top % (qb as u128),
                qb > 0,
        ;
        assert(n * c == mant * step + rem * grain) by (nonlinear_arith)
            requires
                n * c == top * grain,
                top == mant * qb + rem,
                step == qb * grain,
        ;
        assert((mant + 1) * step == mant * step + step) by (nonlinear_arith);
        assert(0 <= rem * grain < step) by (nonlinear_arith)
            requires
                0 <= rem < qb,
                grain > 0,
                step == qb * grain,
        ;
        assert(rem > 0 ==> rem * grain > 0) by (nonlinear_arith)
            requires
                grain > 0,
        ;
        assert(rem == 0 ==> rem * grain == 0) by (nonlinear_arith);
        assert(mant <= top) by (nonlinear_arith)
            requires
                top == mant * qb + rem,
                rem >= 0,
                qb >= 1,
                mant >= 0,
        ;
        assert(mant >= 4 * BINADE) by (nonlinear_arith)
            requires
                top == mant * qb + rem,
                0 <= rem < qb,
                0 < qb < 0x20_0000_0000_0000,
                BINADE == 0x10_0000_0000_0000,
                top >= 0x10_0000_0000_0000 * 0x1_0000_0000_0000_0000,
                mant >= 0,
        ;
    }
    round(mant, exp, sticky, Ghost(n), Ghost(d))
}

/// The pattern nearest to the sum of two magnitudes.
fn add_up(a: u64, b: u64) -> (r: u64)
    requires
        b <= a < INFINITE,
    ensures
        r == rounded(unit(a as int) + unit(b as int), 1),
        r <= INFINITE,
{
    let (qa, ka): (u64, i32) = parts(a);
    let (qb, kb): (u64, i32) = parts(b);
    let ghost n = unit(a as int) + unit(b as int);
    proof {
        lemma_scales(a as int, b as int, ka as int, qa as int, kb as int, qb as int);
    }
    if ka - kb <= 64 {
        let mant: u128 = doubled(qa, ka - kb) + qb as u128;
        proof {
            lemma_aligned(n, ka as int, qa as int, kb as int, qb as int);
        }
        round(mant, kb, false, Ghost(n), Ghost(1))
    } else if qb == 0 {
        proof {
            lemma2_to64();
            assert(unit(b as int) == 0) by (nonlinear_arith)
                requires
                    unit(b as int) == qb * pow2(kb as nat),
                    qb == 0,
            ;
            assert(qa * pow2(0) == qa) by (nonlinear_arith)
                requires
                    pow2(0) == 1,
            ;
            lemma_aligned(n, ka as int, qa as int, ka as int, 0);
        }
        round(qa as u128, ka, false, Ghost(n), Ghost(1))
    } else {
        let mant: u128 = doubled(qa, 10);
        proof {
            lemma_far(n, ka as int, qa as int, kb as int, qb as int);
        }
        round(mant, ka - 10, true, Ghost(n), Ghost(1))
    }
}

/// The pattern nearest to the difference of two magnitudes.
fn take_away(a: u64, b: u64) -> (r: u64)
    requires
        b <= a < INFINITE,
    ensures
        r == rounded(unit(a as int) - unit(b as int), 1),
        r <= INFINITE,
{
    let (qa, ka): (u64, i32) = parts(a);
    let (qb, kb): (u64, i32) = parts(b);
    let ghost n = unit(a as int) - unit(b as int);
    proof {
        lemma_scales(a as int, b as int, ka as int, qa as int, kb as int, qb as int);
    }
    if ka - kb <= 64 {
        let wide: u128 = doubled(qa, ka - kb);
        proof {
            assert(n == qa * pow2(ka as nat) + (-qb) * pow2(kb as nat)) by (nonlinear_arith)
                requires
                    n == qa * pow2(ka as nat) - qb * pow2(kb as nat),
            ;
            lemma_aligned(n, ka as int, qa as int, kb as int, -qb);
            let pd = pow2((ka - kb) as nat) as int;
            let pb = pow2(kb as nat) as int;
            lemma_pow2_pos(kb as nat);
            lemma_pow2_adds((ka - kb) as nat, kb as nat);
            if b < a {
                lemma_unit_increases(b as int, a as int);
            }
            assert(qa * pd >= qb) by (nonlinear_arith)
                requires
                    qa * pow2(ka as nat) >= qb * pb,
                    pow2(ka as nat) == pd * pb,
                    pb > 0,
            ;
        }
        round(wide - qb as u128, kb, false, Ghost(n), Ghost(1))
    } else if qb == 0 {
        proof {
            lemma2_to64();
            assert(unit(b as int) == 0) by (nonlinear_arith)
                requires
                    unit(b as int) == qb * pow2(kb as nat),
                    qb == 0,
            ;
            assert(qa * pow2(0) == qa) by (nonlinear_arith)
                requires
                    pow2(0) == 1,
            ;
            lemma_aligned(n, ka as int, qa as int, ka as int, 0);
        }
        round(qa as u128, ka, false, Ghost(n), Ghost(1))
    } else {
        let wide: u128 = doubled(qa, 10);
        proof {
            assert(n == qa * pow2(ka as nat) + (-qb) * pow2(kb as nat)) by (nonlinear_arith)
                requires
                    n == qa * pow2(ka as nat) - qb * pow2(kb as nat),
            ;
            lemma_far(n, ka as int, qa as int, kb as int, -qb);
        }
        round(wide - 1, ka - 10, true, Ghost(n), Ghost(1))
    }
}

/// A larger pattern has no smaller scale.
proof fn lemma_scales(a: int, b: int, ka: int, qa: int, kb: int, qb: int)
    requires
        0 <= b <= a,
        ka == scale(a),
        kb == scale(b),
    ensures
        kb <= ka,
{
    if b >= BINADE {
        assert(b / (BINADE as int) <= a / (BINADE as int));
    }
}

/// Two magnitudes measured in steps of the smaller scale.
proof fn lemma_aligned(n: int, ka: int, qa: int, kb: int, t: int)
    requires
        0 <= kb <= ka,
        n == qa * pow2(ka as nat) + t * pow2(kb as nat),
    ensures
        measured(n, 1, qa * pow2((ka - kb) as nat) + t, kb, false),
{
    let pd = pow2((ka - kb) as nat) as int;
    let pb = pow2(kb as nat) as int;
    let c = pow2(BIAS as nat) as int;
    lemma_pow2_adds((ka - kb) as nat, kb as nat);
    lemma_pow2_adds(kb as nat, BIAS as nat);
    assert(n == (qa * pd + t) * pb) by (nonlinear_arith)
        requires
            n == qa * (pd * pb) + t * pb,
    ;
    let m = qa * pd + t;
    assert(n * c == m * (pb * c)) by (nonlinear_arith)
        requires
            n == m * pb,
    ;
    assert((pb * c) * 1 == pb * c);
}

/// A magnitude many scales below another moves it by less than a step.
proof fn lemma_far(n: int, ka: int, qa: int, kb: int, t: int)
    requires
        0 <= kb < ka - 64,
        BINADE <= qa < 2 * BINADE,
        t != 0,
        -2 * BINADE < t < 2 * BINADE,
        n == qa * pow2(ka as nat) + t * pow2(kb as nat),
    ensures
        t > 0 ==> measured(n, 1, qa * pow2(10), ka - 10, true),
        t < 0 ==> measured(n, 1, qa * pow2(10) - 1, ka - 10, true),
        qa * pow2(10) - 1 >= 4 * BINADE,
        qa * pow2(10) < 0x8000_0000_0000_0000_0000_0000_0000_0000,
{
    let pa = pow2(ka as nat) as int;
    let pb = pow2(kb as nat) as int;
    let c = pow2(BIAS as nat) as int;
    let step = pow2((ka - 10 + BIAS) as nat) as int;
    lemma2_to64();
    lemma2_to64_rest();
    lemma_pow2_pos((kb + BIAS) as nat);
    lemma_pow2_adds(ka as nat, BIAS as nat);
    lemma_pow2_adds(kb as nat, BIAS as nat);
    lemma_pow2_adds(10, (ka - 10 + BIAS) as nat);
    lemma_pow2_adds(53, (kb + BIAS) as nat);
    lemma_pow2_strictly_increases((53 + kb + BIAS) as nat, (ka - 10 + BIAS) as nat);
    let grain = pow2((kb + BIAS) as nat) as int;
    let tiny = t * grain;
    assert(pow2(10) == 1024);
    assert(-step < tiny < step && (t > 0 ==> tiny > 0) && (t < 0 ==> tiny < 0)) by (nonlinear_arith)
        requires
            tiny == t * grain,
            -0x20_0000_0000_0000 < t < 0x20_0000_0000_0000,
            grain > 0,
            0x20_0000_0000_0000 * grain < step,
    ;
    let m = qa * 1024;
    assert((qa * pa) * c == m * step) by (nonlinear_arith)
        requires
            pa * c == 1024 * step,
            m == qa * 1024,
    ;
    assert((t * pb) * c == tiny) by (nonlinear_arith)
        requires
            tiny == t * grain,
            grain == pb * c,
    ;
    assert(n * c == m * step + tiny) by (nonlinear_arith)
        requires
            n == qa * pa + t * pb,
            (qa * pa) * c == m * step,
            (t * pb) * c == tiny,
    ;
    assert((m + 1) * step == m * step + step) by (nonlinear_arith);
    assert((m - 1) * step == m * step - step) by (nonlinear_arith);
    assert(step * 1 == step);
}


/// A binary64 value.
proof fn lemma_root_ordered(m: int, r: int, s: int)
    requires
        nearest_root(m, r),
        nearest_root(m, s),
    ensures
        s <= r,
{
    let high = unit(r) + unit(r + 1);
    let low = unit(s - 1) + unit(s);
    if r < s {
        lemma_unit_next(r);
        lemma_unit_next(r + 1);
        if r + 1 < s {
            lemma_unit_increases(r, s - 1);
            lemma_unit_increases(r + 1, s);
            assert(high * high < low * low) by (nonlinear_arith)
                requires
                    0 <= high < low,
            ;
        }
    }
}

proof fn lemma_rooted(m: int, r: int)
    requires
        nearest_root(m, r),
    ensures
        rooted(m) == r,
{
    lemma_root_ordered(m, r, rooted(m));
    lemma_root_ordered(m, rooted(m), r);
}

/// Patterns from a power of two on measure multiples of its step.
proof fn lemma_multiple(mag: int, k: int) -> (j: int)
    requires
        k >= 0,
        mag >= k * BINADE + BINADE,
    ensures
        unit(mag) == j * pow2(k as nat),
{
    let top = scale(mag);
    assert(mag >= BINADE) by (nonlinear_arith)
        requires
            mag >= k * BINADE + BINADE,
            k >= 0,
    ;
    assert(mag / (BINADE as int) >= k + 1) by (nonlinear_arith)
        requires
            mag >= (k + 1) * BINADE,
            BINADE == 0x10_0000_0000_0000,
    ;
    lemma_pow2_adds((top - k) as nat, k as nat);
    let q = mag - top * BINADE;
    let a = pow2((top - k) as nat) as int;
    let b = pow2(k as nat) as int;
    assert(q * (a * b) == (q * a) * b) by (nonlinear_arith);
    q * a
}

/// The square root rounds as the middle of the step it falls into, because no
/// rounding boundary lies inside a step.
proof fn lemma_root_by_step(m: int, a: int, s: int, e: int, n: int, r: int)
    requires
        0 <= e <= 2000,
        m == a * (pow2(e as nat) * pow2(e as nat)),
        s >= 0x80_0000_0000_0000,
        s * s <= a < (s + 1) * (s + 1),
        n == (if s * s == a {
            2 * s
        } else {
            2 * s + 1
        }) * pow2(e as nat),
        nearest(n, 2, r),
    ensures
        nearest_root(m, r),
{
    let p = pow2(e as nat) as int;
    let k = e + 2;
    let step = pow2(k as nat) as int;
    lemma_pow2_pos(e as nat);
    lemma_pow2_unfold((e + 1) as nat);
    lemma_pow2_unfold((e + 2) as nat);
    assert(step == 4 * p);
    let base = k * BINADE + BINADE;
    lemma_unit_of(k, BINADE as int);
    lemma_unit_of(k, BINADE + 1);
    lemma_unit_next(base);
    assert(n >= 0x100_0000_0000_0000 * p) by (nonlinear_arith)
        requires
            n == (if s * s == a {
                2 * s
            } else {
                2 * s + 1
            }) * p,
            s >= 0x80_0000_0000_0000,
            p > 0,
    ;
    if r <= base {
        if r < base {
            lemma_unit_increases(r, base);
            lemma_unit_increases(r + 1, base + 1);
        }
        assert(k * BINADE + BINADE + 1 == k * BINADE + (BINADE + 1));
        assert(unit(base) == BINADE * step);
        assert(unit(base + 1) == (BINADE + 1) * step);
        assert((unit(base) + unit(base + 1)) * 2 < 2 * n) by (nonlinear_arith)
            requires
                unit(base) == BINADE * step,
                unit(base + 1) == (BINADE + 1) * step,
                BINADE == 0x10_0000_0000_0000,
                step == 4 * p,
                n >= 0x100_0000_0000_0000 * p,
                p > 0,
        ;
        if r < INFINITE {
            assert((unit(r) + unit(r + 1)) * 2 <= (unit(base) + unit(base + 1)) * 2);
        }
    }
    assert(r > base);
    let j0 = lemma_multiple(r - 1, k);
    let j1 = lemma_multiple(r, k);
    let j2 = lemma_multiple(r + 1, k);
    lemma_unit_next(r - 1);
    lemma_unit_next(r);
    let low = unit(r - 1) + unit(r);
    let high = unit(r) + unit(r + 1);
    let i = 2 * (j0 + j1);
    let h = 2 * (j1 + j2);
    assert(low == i * (2 * p)) by (nonlinear_arith)
        requires
            low == j0 * step + j1 * step,
            step == 4 * p,
            i == 2 * (j0 + j1),
    ;
    assert(high == h * (2 * p)) by (nonlinear_arith)
        requires
            high == j1 * step + j2 * step,
            step == 4 * p,
            h == 2 * (j1 + j2),
    ;
    assert(low >= 0);
    assert(i >= 0) by (nonlinear_arith)
        requires
            low == i * (2 * p),
            low >= 0,
            p > 0,
    ;
    assert(4 * m == a * ((2 * p) * (2 * p))) by (nonlinear_arith)
        requires
            m == a * (p * p),
    ;
    let d = 2 * p;
    if s * s == a {
        assert(n == s * d) by (nonlinear_arith)
            requires
                n == (2 * s) * p,
                d == 2 * p,
        ;
        assert(4 * m == n * n) by (nonlinear_arith)
            requires
                4 * m == a * (d * d),
                s * s == a,
                n == s * d,
        ;
        assert(low < n ==> low * low < n * n) by (nonlinear_arith)
            requires
                low >= 0,
        ;
        assert(n < high ==> n * n < high * high) by (nonlinear_arith)
            requires
                n >= 0,
        ;
    } else {
        assert(low <= n);
        assert(i <= s) by (nonlinear_arith)
            requires
                low == i * (2 * p),
                low <= n,
                n == (2 * s + 1) * p,
                p > 0,
        ;
        assert(i * i <= s * s) by (nonlinear_arith)
            requires
                0 <= i <= s,
        ;
        assert(low * low < 4 * m) by (nonlinear_arith)
            requires
                low == i * d,
                4 * m == a * (d * d),
                i * i < a,
                d > 0,
        ;
        if r < INFINITE {
            assert(n <= high);
            assert(h >= s + 1) by (nonlinear_arith)
                requires
                    high == h * (2 * p),
                    n <= high,
                    n == (2 * s + 1) * p,
                    p > 0,
            ;
            assert(h * h >= (s + 1) * (s + 1)) by (nonlinear_arith)
                requires
                    h >= s + 1,
                    s >= 0,
            ;
            assert(4 * m < high * high) by (nonlinear_arith)
                requires
                    high == h * d,
                    4 * m == a * (d * d),
                    a < h * h,
                    d > 0,
            ;
        }
    }
}

/// The floor of a square root.
fn floor_root(a: u128) -> (s: u64)
    requires
        a < 0x1_0000_0000_0000_0000_0000_0000_0000,
    ensures
        s * s <= a < (s + 1) * (s + 1),
        s < 0x100_0000_0000_0000,
{
    let mut s: u64 = 0;
    let mut bit: u64 = 0x100_0000_0000_0000;
    let mut i: u32 = 56;
    proof {
        lemma2_to64();
        lemma2_to64_rest();
    }
    while i > 0
        invariant
            i <= 56,
            bit == pow2(i as nat),
            s + bit <= 0x100_0000_0000_0000,
            s * s <= a < (s + bit) * (s + bit),
        decreases i,
    {
        proof {
            lemma_pow2_unfold(i as nat);
        }
        bit = bit / 2;
        i = i - 1;
        let c: u64 = s + bit;
        proof {
            assert(c * c < 0x1_0000_0000_0000_0000_0000_0000_0000) by (nonlinear_arith)
                requires
                    0 <= c < 0x100_0000_0000_0000,
            ;
            lemma_pow2_pos(i as nat);
        }
        if (c as u128) * (c as u128) <= a {
            s = c;
        }
    }
    proof {
        lemma2_to64();
        assert(s + 1 <= 0x100_0000_0000_0000);
    }
    s
}

/// The pattern nearest to a square root.
fn extract_root(mag: u64) -> (r: u64)
    requires
        0 < mag < INFINITE,
    ensures
        r == rooted(unit(mag as int) * pow2(ONE_EXPONENT as nat)),
        r <= INFINITE,
{
    let (q0, k0): (u64, i32) = parts(mag);
    let mut q: u64 = q0;
    let mut k: i32 = k0;
    let ghost m = unit(mag as int) * pow2(ONE_EXPONENT as nat);
    proof {
        lemma_unit_increases(0, mag as int);
        lemma_unit_of(0, 0);
        lemma_pow2_adds(k as nat, ONE_EXPONENT as nat);
        let pk = pow2(k as nat) as int;
        let one = pow2(ONE_EXPONENT as nat) as int;
        assert((q * pk) * one == q * (pk * one)) by (nonlinear_arith);
        assert(q > 0) by (nonlinear_arith)
            requires
                q * pk > 0,
                q >= 0,
                pk >= 0,
        ;
        lemma2_to64();
    }
    while q < BINADE
        invariant
            0 < q < 2 * BINADE,
            -60 <= k <= 2045,
            q < BINADE ==> k <= 0,
            k <= 0 ==> q >= pow2((-k) as nat) as int,
            m == q * pow2((k + ONE_EXPONENT) as nat),
        decreases 2 * BINADE - q,
    {
        proof {
            lemma_pow2_unfold((k + ONE_EXPONENT) as nat);
            lemma_pow2_unfold((1 - k) as nat);
            lemma2_to64();
            if -k >= 59 {
                lemma2_to64_rest();
                if -k > 59 {
                    lemma_pow2_strictly_increases(59, (-k) as nat);
                }
            }
            let p = pow2((k + ONE_EXPONENT) as nat) as int;
            let p1 = pow2((k - 1 + ONE_EXPONENT) as nat) as int;
            assert(q * p == (2 * q) * p1) by (nonlinear_arith)
                requires
                    p == 2 * p1,
            ;
        }
        q = 2 * q;
        k = k - 1;
    }
    let t: i32 = if k % 2 == 0 {
        58
    } else {
        59
    };
    let e: i32 = (k + 1074 - t) / 2;
    let a: u128 = doubled(q, t);
    proof {
        lemma2_to64_rest();
        assert(pow2(59) == 0x800_0000_0000_0000 && pow2(58) == 0x400_0000_0000_0000);
        assert(a < 0x1_0000_0000_0000_0000_0000_0000_0000 && a >= 0x10_0000_0000_0000
            * 0x400_0000_0000_0000) by (nonlinear_arith)
            requires
                a == q * pow2(t as nat),
                BINADE <= q < 2 * BINADE,
                BINADE == 0x10_0000_0000_0000,
                pow2(t as nat) == 0x800_0000_0000_0000 || pow2(t as nat) == 0x400_0000_0000_0000,
        ;
    }
    let s: u64 = floor_root(a);
    proof {
        if s < 0x80_0000_0000_0000 {
            assert((s + 1) * (s + 1) <= 0x80_0000_0000_0000 * 0x80_0000_0000_0000)
                by (nonlinear_arith)
                requires
                    0 <= s < 0x80_0000_0000_0000,
            ;
        }
        assert(s * s < 0x1_0000_0000_0000_0000_0000_0000_0000) by (nonlinear_arith)
            requires
                0 <= s < 0x100_0000_0000_0000,
        ;
    }
    let sticky: bool = (s as u128) * (s as u128) != a;
    let ghost n = (if s * s == a {
        2 * s
    } else {
        2 * s + 1
    }) * pow2(e as nat);
    proof {
        let p = pow2(e as nat) as int;
        assert(e >= 0 && e <= 2000 && 2 * e + t == k + 1074);
        lemma_pow2_adds(e as nat, e as nat);
        lemma_pow2_adds(t as nat, (2 * e) as nat);
        assert(m == a * (p * p)) by (nonlinear_arith)
            requires
                m == q * (pow2(t as nat) * (p * p)),
                a == q * pow2(t as nat),
        ;
        lemma_pow2_adds(e as nat, BIAS as nat);
        lemma_pow2_pos((e + BIAS) as nat);
        let c = pow2(BIAS as nat) as int;
        let step = pow2((e + BIAS) as nat) * 2;
        assert(n * c == if sticky {
            s * step + pow2((e + BIAS) as nat)
        } else {
            s * step
        }) by (nonlinear_arith)
            requires
                n == (if sticky {
                    2 * s + 1
                } else {
                    2 * s
                }) * p,
                pow2((e + BIAS) as nat) == p * c,
                step == pow2((e + BIAS) as nat) * 2,
        ;
        assert((s + 1) * step == s * step + step) by (nonlinear_arith);
        assert(measured(n, 2, s as int, e as int, sticky));
    }
    let r: u64 = round(s as u128, e, sticky, Ghost(n), Ghost(2));
    proof {
        lemma_root_by_step(m, a as int, s as int, e as int, n, r as int);
        lemma_rooted(m, r as int);
    }
    r
}

/// A value by its bit pattern.
///
/// `==` compares the patterns: the two zeros differ, and an undefined value
/// equals itself. The comparison of the numbers is `is_equal`.
#[derive(Clone, Copy, Debug, PartialEq, Eq, Structural)]
pub struct Binary64 {
    pub bits: u64,
}

impl Binary64 {
    pub open spec fn negative(self) -> bool {
        self.bits >= SIGN
    }

    /// The pattern without its sign.
    pub open spec fn mag(self) -> int {
        if self.bits >= SIGN {
            self.bits - SIGN
        } else {
            self.bits as int
        }
    }

    pub open spec fn finite(self) -> bool {
        self.mag() < INFINITE
    }

    pub open spec fn infinite(self) -> bool {
        self.mag() == INFINITE
    }

    pub open spec fn nan(self) -> bool {
        self.mag() > INFINITE
    }

    pub open spec fn zero(self) -> bool {
        self.mag() == 0
    }

    /// The value in units; an infinity stands at the next power of two.
    pub open spec fn value(self) -> int {
        if self.negative() {
            -unit(self.mag())
        } else {
            unit(self.mag())
        }
    }

    /// `self < other`.
    pub open spec fn less(self, other: Self) -> bool {
        !self.nan() && !other.nan() && self.value() < other.value()
    }

    /// `self <= other`.
    pub open spec fn at_most(self, other: Self) -> bool {
        !self.nan() && !other.nan() && self.value() <= other.value()
    }

    /// `self == other`.
    pub open spec fn equals(self, other: Self) -> bool {
        !self.nan() && !other.nan() && self.value() == other.value()
    }

    pub open spec fn absolute(self) -> Self {
        Self::signed(false, self.mag())
    }

    pub open spec fn positive(self) -> bool {
        !self.nan() && self.value() > 0
    }

    /// The value with sign `negative` and pattern `mag`.
    pub open spec fn signed(negative: bool, mag: int) -> Self {
        if negative {
            Binary64 { bits: (SIGN + mag) as u64 }
        } else {
            Binary64 { bits: mag as u64 }
        }
    }

    pub open spec fn undefined() -> Self {
        Binary64 { bits: UNDEFINED }
    }

    pub open spec fn negation(self) -> Self {
        Self::signed(!self.negative(), self.mag())
    }

    pub open spec fn product(self, other: Self) -> Self {
        let negative = self.negative() != other.negative();
        if self.nan() || other.nan() {
            Self::undefined()
        } else if self.infinite() || other.infinite() {
            if self.zero() || other.zero() {
                Self::undefined()
            } else {
                Self::signed(negative, INFINITE as int)
            }
        } else {
            Self::signed(
                negative,
                rounded(unit(self.mag()) * unit(other.mag()), pow2(ONE_EXPONENT as nat) as int),
            )
        }
    }

    pub open spec fn quotient(self, other: Self) -> Self {
        let negative = self.negative() != other.negative();
        if self.nan() || other.nan() {
            Self::undefined()
        } else if self.infinite() {
            if other.infinite() {
                Self::undefined()
            } else {
                Self::signed(negative, INFINITE as int)
            }
        } else if other.infinite() {
            Self::signed(negative, 0)
        } else if other.zero() {
            if self.zero() {
                Self::undefined()
            } else {
                Self::signed(negative, INFINITE as int)
            }
        } else {
            Self::signed(
                negative,
                rounded(unit(self.mag()) * pow2(ONE_EXPONENT as nat), unit(other.mag())),
            )
        }
    }

    pub open spec fn total(self, other: Self) -> Self {
        let exact = self.value() + other.value();
        if self.nan() || other.nan() {
            Self::undefined()
        } else if self.infinite() && other.infinite() {
            if self.negative() == other.negative() {
                self
            } else {
                Self::undefined()
            }
        } else if self.infinite() {
            self
        } else if other.infinite() {
            other
        } else if exact == 0 {
            Self::signed(self.negative() && other.negative(), 0)
        } else if exact < 0 {
            Self::signed(true, rounded(-exact, 1))
        } else {
            Self::signed(false, rounded(exact, 1))
        }
    }

    pub open spec fn root(self) -> Self {
        if self.nan() {
            Self::undefined()
        } else if self.zero() {
            self
        } else if self.negative() {
            Self::undefined()
        } else if self.infinite() {
            self
        } else {
            Self::signed(false, rooted(unit(self.mag()) * pow2(ONE_EXPONENT as nat)))
        }
    }

    pub open spec fn difference(self, other: Self) -> Self {
        self.total(other.negation())
    }

    /// The value nearest to the integer `i`.
    pub open spec fn of_int(i: int) -> Self {
        if i < 0 {
            Self::signed(true, rounded(-i * pow2(ONE_EXPONENT as nat), 1))
        } else {
            Self::signed(false, rounded(i * pow2(ONE_EXPONENT as nat), 1))
        }
    }

    pub fn from_bits(bits: u64) -> (r: Self)
        ensures
            r.bits == bits,
    {
        Binary64 { bits }
    }

    pub fn to_bits(self) -> (r: u64)
        ensures
            r == self.bits,
    {
        self.bits
    }

    pub fn is_finite(self) -> (r: bool)
        ensures
            r == self.finite(),
    {
        self.magnitude() < INFINITE
    }

    pub fn is_nan(self) -> (r: bool)
        ensures
            r == self.nan(),
    {
        self.magnitude() > INFINITE
    }

    /// The pattern without its sign.
    pub fn magnitude(self) -> (r: u64)
        ensures
            r == self.mag(),
    {
        if self.bits >= SIGN {
            self.bits - SIGN
        } else {
            self.bits
        }
    }

    fn pack(negative: bool, mag: u64) -> (r: Self)
        requires
            mag < SIGN,
        ensures
            r == Self::signed(negative, mag as int),
            r.mag() == mag,
            r.negative() == negative,
    {
        if negative {
            Binary64 { bits: SIGN + mag }
        } else {
            Binary64 { bits: mag }
        }
    }

    /// Whether `self` is smaller than `other`; no order holds with an undefined
    /// value.
    pub fn is_less(self, other: Self) -> (r: bool)
        ensures
            r == self.less(other),
    {
        let a: u64 = self.magnitude();
        let b: u64 = other.magnitude();
        proof {
            lemma_order(a as int, b as int);
            lemma_order(a as int, 0);
            lemma_order(b as int, 0);
            lemma_unit_of(0, 0);
        }
        if a > INFINITE || b > INFINITE {
            false
        } else if self.bits >= SIGN {
            if other.bits >= SIGN {
                b < a
            } else {
                a > 0 || b > 0
            }
        } else if other.bits >= SIGN {
            false
        } else {
            a < b
        }
    }

    /// Whether `self` is no greater than `other`.
    pub fn is_at_most(self, other: Self) -> (r: bool)
        ensures
            r == self.at_most(other),
    {
        if self.is_nan() || other.is_nan() {
            false
        } else {
            !other.is_less(self)
        }
    }

    /// Whether the value lies above zero.
    pub fn is_positive(self) -> (r: bool)
        ensures
            r == self.positive(),
    {
        let a: u64 = self.magnitude();
        proof {
            lemma_order(a as int, 0);
            lemma_unit_of(0, 0);
        }
        a <= INFINITE && self.bits < SIGN && a > 0
    }

    /// Whether the value lies below zero.
    pub fn is_below_zero(self) -> (r: bool)
        ensures
            r == (!self.nan() && self.value() < 0),
    {
        let a: u64 = self.magnitude();
        proof {
            lemma_order(a as int, 0);
            lemma_unit_of(0, 0);
        }
        a <= INFINITE && self.bits >= SIGN && a > 0
    }

    /// Whether the two stand for the same number.
    pub fn is_equal(self, other: Self) -> (r: bool)
        ensures
            r == self.equals(other),
    {
        self.is_at_most(other) && other.is_at_most(self)
    }

    /// The value without its sign.
    pub fn abs(self) -> (r: Self)
        ensures
            r == self.absolute(),
    {
        Self::pack(false, self.magnitude())
    }

    pub fn negate(self) -> (r: Self)
        ensures
            r == self.negation(),
    {
        Self::pack(!(self.bits >= SIGN), self.magnitude())
    }

    pub fn times(self, other: Self) -> (r: Self)
        ensures
            r == self.product(other),
    {
        let a: u64 = self.magnitude();
        let b: u64 = other.magnitude();
        let negative: bool = (self.bits >= SIGN) != (other.bits >= SIGN);
        if a > INFINITE || b > INFINITE {
            Binary64 { bits: UNDEFINED }
        } else if a == INFINITE || b == INFINITE {
            if a == 0 || b == 0 {
                Binary64 { bits: UNDEFINED }
            } else {
                Self::pack(negative, INFINITE)
            }
        } else {
            Self::pack(negative, multiply(a, b))
        }
    }

    pub fn over(self, other: Self) -> (r: Self)
        ensures
            r == self.quotient(other),
    {
        let a: u64 = self.magnitude();
        let b: u64 = other.magnitude();
        let negative: bool = (self.bits >= SIGN) != (other.bits >= SIGN);
        if a > INFINITE || b > INFINITE {
            Binary64 { bits: UNDEFINED }
        } else if a == INFINITE {
            if b == INFINITE {
                Binary64 { bits: UNDEFINED }
            } else {
                Self::pack(negative, INFINITE)
            }
        } else if b == INFINITE {
            Self::pack(negative, 0)
        } else if b == 0 {
            if a == 0 {
                Binary64 { bits: UNDEFINED }
            } else {
                Self::pack(negative, INFINITE)
            }
        } else if a == 0 {
            proof {
                lemma_unit_of(0, 0);
                lemma_order(b as int, 0);
                lemma_rounded_exact(unit(b as int), 0);
                let one = pow2(ONE_EXPONENT as nat) as int;
                let units = unit(b as int);
                assert(unit(0) == 0);
                assert(0 * one == 0 && 0 * units == 0) by (nonlinear_arith);
                assert(rounded(unit(a as int) * one, units) == 0);
            }
            Self::pack(negative, 0)
        } else {
            Self::pack(negative, divide(a, b))
        }
    }

    pub fn plus(self, other: Self) -> (r: Self)
        ensures
            r == self.total(other),
    {
        let a: u64 = self.magnitude();
        let b: u64 = other.magnitude();
        let a_negative: bool = self.bits >= SIGN;
        let b_negative: bool = other.bits >= SIGN;
        if a > INFINITE || b > INFINITE {
            Binary64 { bits: UNDEFINED }
        } else if a == INFINITE {
            if b == INFINITE && a_negative != b_negative {
                Binary64 { bits: UNDEFINED }
            } else {
                self
            }
        } else if b == INFINITE {
            other
        } else {
            proof {
                lemma_order(a as int, b as int);
                lemma_order(a as int, 0);
                lemma_order(b as int, 0);
                lemma_unit_of(0, 0);
                lemma_rounded_exact(1, 0);
            }
            if a_negative == b_negative {
                let mag: u64 = if a >= b {
                    add_up(a, b)
                } else {
                    add_up(b, a)
                };
                Self::pack(a_negative, mag)
            } else if a == b {
                Self::pack(false, 0)
            } else if a > b {
                Self::pack(a_negative, take_away(a, b))
            } else {
                Self::pack(b_negative, take_away(b, a))
            }
        }
    }

    pub fn minus(self, other: Self) -> (r: Self)
        ensures
            r == self.difference(other),
    {
        self.plus(other.negate())
    }

    /// The square root.
    pub fn square_root(self) -> (r: Self)
        ensures
            r == self.root(),
    {
        let mag: u64 = self.magnitude();
        if mag > INFINITE {
            Binary64 { bits: UNDEFINED }
        } else if mag == 0 {
            self
        } else if self.bits >= SIGN {
            Binary64 { bits: UNDEFINED }
        } else if mag == INFINITE {
            self
        } else {
            Self::pack(false, extract_root(mag))
        }
    }

    /// The pattern nearest to an unsigned integer.
    fn whole(i: u64) -> (r: u64)
        ensures
            r == rounded(i * pow2(ONE_EXPONENT as nat), 1),
            r <= INFINITE,
    {
        let ghost n = i * pow2(ONE_EXPONENT as nat);
        proof {
            lemma_pow2_adds(ONE_EXPONENT as nat, BIAS as nat);
            let one = pow2(ONE_EXPONENT as nat) as int;
            let c = pow2(BIAS as nat) as int;
            assert((i * one) * c == i * ((one * c) * 1)) by (nonlinear_arith);
        }
        round(i as u128, 1074, false, Ghost(n), Ghost(1))
    }

    /// The value nearest to an unsigned integer.
    pub fn from_u64(i: u64) -> (r: Self)
        ensures
            r == Self::of_int(i as int),
    {
        Self::pack(false, Self::whole(i))
    }

    /// The value nearest to a signed integer.
    pub fn from_i64(i: i64) -> (r: Self)
        ensures
            r == Self::of_int(i as int),
    {
        if i < 0 {
            let m: u64 = (-(i as i128)) as u64;
            Self::pack(true, Self::whole(m))
        } else {
            Self::pack(false, Self::whole(i as u64))
        }
    }

    /// The smaller of two values; an undefined one gives way.
    pub open spec fn lesser(self, other: Self) -> Self {
        if self.nan() {
            other
        } else if other.less(self) {
            other
        } else {
            self
        }
    }

    /// The greater of two values; an undefined one gives way.
    pub open spec fn greater(self, other: Self) -> Self {
        if self.nan() {
            other
        } else if self.less(other) {
            other
        } else {
            self
        }
    }

    pub fn min(self, other: Self) -> (r: Self)
        ensures
            r == self.lesser(other),
    {
        if self.is_nan() || other.is_less(self) {
            other
        } else {
            self
        }
    }

    pub fn max(self, other: Self) -> (r: Self)
        ensures
            r == self.greater(other),
    {
        if self.is_nan() || self.is_less(other) {
            other
        } else {
            self
        }
    }
}

pub proof fn lemma_order(a: int, b: int)
    requires
        0 <= a,
        0 <= b,
    ensures
        unit(a) < unit(b) <==> a < b,
        unit(a) == unit(b) <==> a == b,
{
    if a < b {
        lemma_unit_increases(a, b);
    } else if b < a {
        lemma_unit_increases(b, a);
    }
}

} // verus!
