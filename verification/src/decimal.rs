//! Decimal renderings of binary64 values with a fixed number of places.

use crate::binary64;
use crate::binary64::{Binary64, BINADE, INFINITE, ONE_EXPONENT, SIGN};
use crate::text;
use vstd::arithmetic::power::*;
use vstd::arithmetic::power2::*;
use vstd::prelude::*;

verus! {

/// The integer nearest to `n / d`, the even one where two are.
pub open spec fn half_even(n: int, d: int) -> int {
    let low = n / d;
    let rest = 2 * (n % d);
    if rest < d || (rest == d && low % 2 == 0) {
        low
    } else {
        low + 1
    }
}

/// The magnitude of a finite value in units of the last of `places` decimal
/// places, rounded half to even.
pub open spec fn last_places(value: Binary64, places: nat) -> int {
    half_even(
        binary64::unit(value.mag()) * pow(10, places),
        pow2(ONE_EXPONENT as nat) as int,
    )
}

/// A non-negative count of last places, written with its decimal point.
pub open spec fn pointed(units: int, places: nat) -> Seq<char> {
    text::numeral((units / pow(10, places)) as nat) + "."@ + text::padded(
        (units % pow(10, places)) as nat,
        places,
    )
}

/// A value with a fixed number of decimal places.
pub open spec fn fixed(value: Binary64, places: nat) -> Seq<char> {
    let sign = if value.negative() {
        "-"@
    } else {
        Seq::empty()
    };
    if value.nan() {
        "NaN"@
    } else if value.infinite() {
        sign + "inf"@
    } else {
        sign + pointed(last_places(value, places), places)
    }
}

/// Rounding stays within half a unit.
pub proof fn lemma_half_even_near(n: int, d: int)
    requires
        n >= 0,
        d > 0,
    ensures
        half_even(n, d) >= 0,
        2 * n - d <= 2 * (d * half_even(n, d)) <= 2 * n + d,
{
    let low = n / d;
    vstd::arithmetic::div_mod::lemma_fundamental_div_mod(n, d);
    assert(low >= 0) by (nonlinear_arith)
        requires
            low == n / d,
            n >= 0,
            d > 0,
    ;
    assert(d * (low + 1) == d * low + d) by (nonlinear_arith);
}

/// Rounding keeps the order.
pub proof fn lemma_half_even_monotone(n: int, m: int, d: int)
    requires
        0 <= n <= m,
        d > 0,
    ensures
        half_even(n, d) <= half_even(m, d),
{
    vstd::arithmetic::div_mod::lemma_div_is_ordered(n, m, d);
    vstd::arithmetic::div_mod::lemma_fundamental_div_mod(n, d);
    vstd::arithmetic::div_mod::lemma_fundamental_div_mod(m, d);
}

proof fn lemma_half_even_scales(n: int, d: int, c: int)
    requires
        n >= 0,
        d > 0,
        c > 0,
    ensures
        half_even(n * c, d * c) == half_even(n, d),
{
    let q = n / d;
    let r = n % d;
    vstd::arithmetic::div_mod::lemma_fundamental_div_mod(n, d);
    assert(n * c == q * (d * c) + r * c) by (nonlinear_arith)
        requires
            n == d * q + r,
    ;
    assert(0 <= r * c < d * c) by (nonlinear_arith)
        requires
            0 <= r < d,
            c > 0,
    ;
    vstd::arithmetic::div_mod::lemma_fundamental_div_mod_converse(n * c, d * c, q, r * c);
    assert(2 * (r * c) < d * c <==> 2 * r < d) by (nonlinear_arith)
        requires
            c > 0,
    ;
    assert(2 * (r * c) == d * c <==> 2 * r == d) by (nonlinear_arith)
        requires
            c > 0,
    ;
}

proof fn lemma_half_even_whole(n: int, c: int)
    requires
        n >= 0,
        c > 0,
    ensures
        half_even(n * c, c) == n,
{
    assert(n * c == n * c + 0);
    vstd::arithmetic::div_mod::lemma_fundamental_div_mod_converse(n * c, c, n, 0);
}

/// A finite magnitude counted in last places.
enum Counted {
    /// The count itself.
    Units(u128),
    /// A whole number: a significand doubled a number of times.
    Whole(u64, u32),
}

impl Counted {
    /// The count that is meant.
    spec fn units(self, ten: int) -> int {
        match self {
            Counted::Units(n) => n as int,
            Counted::Whole(q, s) => (q * pow2(s as nat)) * ten,
        }
    }
}

/// Counts a finite magnitude in units of `1 / ten`.
fn count(mag: u64, ten: u64) -> (r: Counted)
    requires
        mag < INFINITE,
        0 < ten < 0x1_0000_0000_0000,
    ensures
        r.units(ten as int) == half_even(
            binary64::unit(mag as int) * ten,
            pow2(ONE_EXPONENT as nat) as int,
        ),
        r matches Counted::Whole(q, s) ==> q >= BINADE && s <= 971,
{
    let (q, k): (u64, i32) = binary64::parts(mag);
    let ghost one = pow2(ONE_EXPONENT as nat) as int;
    let ghost exact = binary64::unit(mag as int) * ten;
    proof {
        lemma_pow2_pos(k as nat);
        let p = pow2(k as nat) as int;
        assert(exact == (q * ten) * p) by (nonlinear_arith)
            requires
                exact == (q * p) * ten,
        ;
        assert(q * ten < 0x2000_0000_0000_0000_0000_0000_0000) by (nonlinear_arith)
            requires
                0 <= q < 0x20_0000_0000_0000,
                0 < ten < 0x1_0000_0000_0000,
        ;
        assert(q * ten >= 0) by (nonlinear_arith)
            requires
                q >= 0,
                ten > 0,
        ;
    }
    let product: u128 = (q as u128) * (ten as u128);
    if k >= 1074 {
        let s: u32 = (k - 1074) as u32;
        proof {
            lemma_pow2_adds(s as nat, ONE_EXPONENT as nat);
            lemma_pow2_pos(ONE_EXPONENT as nat);
            let ps = pow2(s as nat) as int;
            let n = (q * ps) * ten;
            assert(exact == n * one) by (nonlinear_arith)
                requires
                    exact == (q * ten) * (ps * one),
                    n == (q * ps) * ten,
            ;
            assert(n >= 0) by (nonlinear_arith)
                requires
                    n == (q * ps) * ten,
                    q >= 0,
                    ps >= 0,
                    ten > 0,
            ;
            lemma_half_even_whole(n, one);
        }
        return Counted::Whole(q, s);
    }
    let s: u32 = (1074 - k) as u32;
    proof {
        lemma_pow2_adds(s as nat, k as nat);
        lemma_pow2_pos(s as nat);
        lemma_half_even_scales(q * ten, pow2(s as nat) as int, pow2(k as nat) as int);
    }
    assert(half_even(exact, one) == half_even(q * ten, pow2(s as nat) as int));
    if s > 120 {
        proof {
            vstd::arithmetic::power2::lemma_pow2_strictly_increases(120, s as nat);
            lemma_pow2_adds(60, 60);
            lemma2_to64_rest();
            let d = pow2(s as nat) as int;
            let n = (q * ten) as int;
            vstd::arithmetic::div_mod::lemma_fundamental_div_mod_converse(n, d, 0, n);
        }
        return Counted::Units(0);
    }
    let d: u128 = power_of_two(s);
    let low: u128 = product / d;
    let rest: u128 = 2 * (product % d);
    if rest < d || (rest == d && low % 2 == 0) {
        Counted::Units(low)
    } else {
        proof {
            assert(low <= product) by (nonlinear_arith)
                requires
                    low == product / d,
                    d >= 1,
            ;
        }
        Counted::Units(low + 1)
    }
}

/// `2^s`.
fn power_of_two(s: u32) -> (r: u128)
    requires
        s <= 120,
    ensures
        r == pow2(s as nat),
        r <= 0x100_0000_0000_0000_0000_0000_0000_0000,
{
    let mut r: u128 = 1;
    let mut i: u32 = 0;
    proof {
        lemma2_to64();
        lemma2_to64_rest();
        lemma_pow2_adds(60, 60);
    }
    while i < s
        invariant
            i <= s <= 120,
            r == pow2(i as nat),
            pow2(120) == 0x100_0000_0000_0000_0000_0000_0000_0000,
        decreases s - i,
    {
        proof {
            lemma_pow2_unfold((i + 1) as nat);
            lemma_pow2_strictly_increases(i as nat, 120);
        }
        r = 2 * r;
        i = i + 1;
    }
    proof {
        if s < 120 {
            lemma_pow2_strictly_increases(s as nat, 120);
        }
    }
    r
}

/// The number that little-endian decimal digits stand for.
spec fn amount(digits: Seq<u8>) -> int
    decreases digits.len(),
{
    if digits.len() == 0 {
        0
    } else {
        amount(digits.drop_last()) + digits.last() * pow(10, (digits.len() - 1) as nat)
    }
}

/// Every digit is one, and the leading one is not zero.
spec fn proper(digits: Seq<u8>) -> bool {
    &&& digits.len() > 0
    &&& forall|i: int| 0 <= i < digits.len() ==> #[trigger] digits[i] < 10
    &&& digits.last() > 0
}

proof fn lemma_amount_first(digits: Seq<u8>)
    requires
        digits.len() > 0,
    ensures
        amount(digits) == digits[0] + 10 * amount(digits.drop_first()),
    decreases digits.len(),
{
    reveal(pow);
    if digits.len() == 1 {
        assert(digits.drop_last() =~= Seq::<u8>::empty());
        assert(digits.drop_first() =~= Seq::<u8>::empty());
        lemma_pow0(10);
    } else {
        lemma_amount_first(digits.drop_last());
        assert(digits.drop_last().drop_first() =~= digits.drop_first().drop_last());
        let d = digits.last() as int;
        let p = pow(10, (digits.len() - 2) as nat);
        assert(pow(10, (digits.len() - 1) as nat) == 10 * p);
        assert(d * (10 * p) == 10 * (d * p)) by (nonlinear_arith);
    }
}

proof fn lemma_amount_positive(digits: Seq<u8>)
    requires
        proper(digits),
    ensures
        amount(digits) > 0,
{
    lemma_amount_natural(digits.drop_last());
    lemma_pow_positive(10, (digits.len() - 1) as nat);
    let d = digits.last() as int;
    let p = pow(10, (digits.len() - 1) as nat);
    assert(d * p > 0) by (nonlinear_arith)
        requires
            d > 0,
            p > 0,
    ;
}

proof fn lemma_amount_natural(digits: Seq<u8>)
    ensures
        amount(digits) >= 0,
    decreases digits.len(),
{
    if digits.len() > 0 {
        lemma_amount_natural(digits.drop_last());
        lemma_pow_positive(10, (digits.len() - 1) as nat);
        let d = digits.last() as int;
        let p = pow(10, (digits.len() - 1) as nat);
        assert(d * p >= 0) by (nonlinear_arith)
            requires
                d >= 0,
                p > 0,
        ;
    }
}

proof fn lemma_amount_numeral(digits: Seq<u8>)
    requires
        proper(digits),
    ensures
        text::numeral(amount(digits) as nat) == Seq::new(
            digits.len(),
            |i: int| text::digit(digits[digits.len() - 1 - i] as int),
        ),
    decreases digits.len(),
{
    lemma_amount_first(digits);
    let written = Seq::new(
        digits.len(),
        |i: int| text::digit(digits[digits.len() - 1 - i] as int),
    );
    let rest = digits.drop_first();
    if digits.len() == 1 {
        assert(rest =~= Seq::<u8>::empty());
        assert(written =~= seq![text::digit(digits[0] as int)]);
    } else {
        assert(proper(rest));
        lemma_amount_numeral(rest);
        lemma_amount_positive(rest);
        let n = amount(digits);
        assert(n / 10 == amount(rest) && n % 10 == digits[0]);
        assert(written =~= text::numeral(amount(rest) as nat).push(text::digit(digits[0] as int)));
    }
}

/// Doubles a number held in little-endian decimal digits.
fn double(digits: &mut Vec<u8>)
    requires
        proper(old(digits)@),
        old(digits)@.len() < 1000,
    ensures
        proper(final(digits)@),
        amount(final(digits)@) == 2 * amount(old(digits)@),
        final(digits)@.len() <= old(digits)@.len() + 1,
{
    let ghost start = digits@;
    let mut carry: u8 = 0;
    let mut i: usize = 0;
    proof {
        lemma_pow0(10);
        assert(start.take(0) =~= Seq::<u8>::empty());
        assert(digits@.take(0) =~= Seq::<u8>::empty());
    }
    while i < digits.len()
        invariant
            i <= digits@.len(),
            digits@.len() == start.len(),
            proper(start),
            carry <= 1,
            forall|j: int| i <= j < start.len() ==> digits@[j] == start[j],
            forall|j: int| 0 <= j < i ==> #[trigger] digits@[j] < 10,
            amount(digits@.take(i as int)) + carry * pow(10, i as nat) == 2 * amount(
                start.take(i as int),
            ),
            i == start.len() && carry == 0 ==> digits@.last() > 0,
        decreases digits@.len() - i,
    {
        let d: u8 = digits[i];
        assert(d == start[i as int] && start[i as int] < 10);
        let twice: u8 = 2 * d + carry;
        let ghost before = digits@;
        digits.set(i, twice % 10);
        proof {
            let p = pow(10, i as nat);
            reveal(pow);
            assert(pow(10, (i + 1) as nat) == 10 * p);
            assert(digits@.take(i + 1).drop_last() =~= before.take(i as int));
            assert(start.take(i + 1).drop_last() =~= start.take(i as int));
            let low = (twice % 10) as int;
            let up = (twice / 10) as int;
            assert(low * p + up * (10 * p) == 2 * (d * p) + carry * p) by (nonlinear_arith)
                requires
                    low + 10 * up == 2 * d + carry,
            ;
        }
        carry = twice / 10;
        i = i + 1;
    }
    proof {
        assert(digits@.take(digits@.len() as int) =~= digits@);
        assert(start.take(start.len() as int) =~= start);
    }
    if carry > 0 {
        let ghost low = digits@;
        digits.push(carry);
        proof {
            assert(digits@.drop_last() =~= low);
        }
    }
}

/// Little-endian decimal digits of a positive number.
fn digits_of(n: u64) -> (r: Vec<u8>)
    requires
        n > 0,
    ensures
        proper(r@),
        amount(r@) == n,
        r@.len() <= 20,
{
    let mut digits: Vec<u8> = Vec::new();
    let mut left: u64 = n;
    proof {
        lemma_pow0(10);
    }
    while left > 0
        invariant
            forall|i: int| 0 <= i < digits@.len() ==> #[trigger] digits@[i] < 10,
            amount(digits@) + left * pow(10, digits@.len()) == n,
            left == 0 ==> digits@.len() > 0 && digits@.last() > 0,
            digits@.len() <= 20,
            n <= u64::MAX,
        decreases left,
    {
        let ghost before = digits@;
        let ghost p = pow(10, before.len());
        proof {
            lemma_amount_natural(before);
            if before.len() == 20 {
                reveal(pow);
                reveal_with_fuel(pow, 21);
                assert(pow(10, 20) == 100000000000000000000);
                assert(left * p >= p) by (nonlinear_arith)
                    requires
                        left >= 1,
                        p >= 0,
                ;
            }
        }
        digits.push((left % 10) as u8);
        proof {
            assert(digits@.drop_last() =~= before);
            reveal(pow);
            assert(pow(10, digits@.len()) == 10 * p);
            let low = (left % 10) as int;
            let up = (left / 10) as int;
            assert(low * p + up * (10 * p) == left * p) by (nonlinear_arith)
                requires
                    low + 10 * up == left,
            ;
        }
        left = left / 10;
    }
    assert(0 * pow(10, digits@.len()) == 0) by (nonlinear_arith);
    digits
}

/// Appends the numeral of a positive number doubled a number of times.
fn push_doubled(out: &mut String, n: u64, doublings: u32)
    requires
        n > 0,
        doublings <= 971,
    ensures
        final(out)@ == old(out)@ + text::numeral((n * pow2(doublings as nat)) as nat),
{
    let mut digits: Vec<u8> = digits_of(n);
    let mut i: u32 = 0;
    proof {
        lemma2_to64();
    }
    while i < doublings
        invariant
            i <= doublings <= 971,
            proper(digits@),
            digits@.len() <= 20 + i,
            amount(digits@) == n * pow2(i as nat),
        decreases doublings - i,
    {
        double(&mut digits);
        proof {
            lemma_pow2_unfold((i + 1) as nat);
            let p = pow2(i as nat) as int;
            assert(n * (2 * p) == 2 * (n * p)) by (nonlinear_arith);
        }
        i = i + 1;
    }
    let ghost written = Seq::new(
        digits@.len(),
        |i: int| text::digit(digits@[digits@.len() - 1 - i] as int),
    );
    proof {
        lemma_amount_numeral(digits@);
    }
    let mut at: usize = digits.len();
    assert(written.take(0) =~= Seq::<char>::empty());
    while at > 0
        invariant
            at <= digits@.len(),
            proper(digits@),
            written == Seq::new(
                digits@.len(),
                |i: int| text::digit(digits@[digits@.len() - 1 - i] as int),
            ),
            out@ == old(out)@ + written.take(digits@.len() - at),
        decreases at,
    {
        at = at - 1;
        text::push_digit(out, digits[at]);
        assert(written.take(digits@.len() - at) =~= written.take(digits@.len() - at - 1).push(
            text::digit(digits@[at as int] as int),
        ));
    }
    assert(written.take(written.len() as int) =~= written);
}

/// `10^places`.
fn power_of_ten(places: u32) -> (r: u64)
    requires
        0 < places <= 14,
    ensures
        r == pow(10, places as nat),
        0 < r < 0x1_0000_0000_0000,
{
    let mut r: u64 = 1;
    let mut i: u32 = 0;
    proof {
        lemma_pow0(10);
        reveal(pow);
        reveal_with_fuel(pow, 15);
        assert(pow(10, 14) == 100000000000000);
    }
    while i < places
        invariant
            i <= places <= 14,
            r == pow(10, i as nat),
            pow(10, 14) == 100000000000000,
        decreases places - i,
    {
        proof {
            reveal(pow);
            assert(pow(10, (i + 1) as nat) == 10 * pow(10, i as nat));
            lemma_pow_increases(10, i as nat, 14);
        }
        r = 10 * r;
        i = i + 1;
    }
    proof {
        lemma_pow_increases(10, places as nat, 14);
        lemma_pow_positive(10, places as nat);
    }
    r
}

/// The value in units of the last of `places` decimal places, where it is
/// finite and the count is no greater than `limit`.
pub fn units(value: Binary64, places: u32, limit: u64) -> (r: Option<u64>)
    requires
        0 < places <= 14,
        limit < 0x1_0000_0000_0000_0000,
    ensures
        match r {
            Some(n) => value.finite() && n == last_places(value, places as nat) && n <= limit,
            None => !value.finite() || last_places(value, places as nat) > limit,
        },
{
    if !value.is_finite() {
        return None;
    }
    let ten: u64 = power_of_ten(places);
    match count(value.magnitude(), ten) {
        Counted::Units(n) => if n <= limit as u128 {
            Some(n as u64)
        } else {
            None
        },
        Counted::Whole(q, s) => {
            let mut whole: u128 = q as u128;
            let mut i: u32 = 0;
            let ghost all = (q * pow2(s as nat)) * ten;
            proof {
                lemma2_to64();
            }
            while i < s && whole <= limit as u128
                invariant
                    i <= s <= 971,
                    whole == q * pow2(i as nat),
                    whole <= 0x2_0000_0000_0000_0000,
                    limit < 0x1_0000_0000_0000_0000,
                decreases s - i,
            {
                proof {
                    lemma_pow2_unfold((i + 1) as nat);
                    let p = pow2(i as nat) as int;
                    assert(q * (2 * p) == 2 * (q * p)) by (nonlinear_arith);
                }
                whole = 2 * whole;
                i = i + 1;
            }
            proof {
                if i < s {
                    lemma_pow2_strictly_increases(i as nat, s as nat);
                }
                let pi = pow2(i as nat) as int;
                let ps = pow2(s as nat) as int;
                assert(all >= whole * ten) by (nonlinear_arith)
                    requires
                        all == (q * ps) * ten,
                        whole == q * pi,
                        ps >= pi,
                        q >= 0,
                        ten > 0,
                ;
                assert(whole * ten >= whole) by (nonlinear_arith)
                    requires
                        ten > 0,
                        whole >= 0,
                ;
                assert(whole * ten <= 0x2_0000_0000_0000_0000 * 0x1_0000_0000_0000)
                    by (nonlinear_arith)
                    requires
                        0 <= whole <= 0x2_0000_0000_0000_0000,
                        0 < ten < 0x1_0000_0000_0000,
                ;
            }
            if i < s || whole > limit as u128 {
                return None;
            }
            let n: u128 = whole * (ten as u128);
            if n <= limit as u128 {
                Some(n as u64)
            } else {
                None
            }
        },
    }
}

/// Appends a value with a fixed number of decimal places.
pub fn push_fixed(out: &mut String, value: Binary64, places: u32)
    requires
        0 < places <= 14,
    ensures
        final(out)@ == old(out)@ + fixed(value, places as nat),
{
    if value.is_nan() {
        out.append("NaN");
        return ;
    }
    if value.to_bits() >= SIGN {
        out.append("-");
    }
    let ghost signed = out@;
    let ghost sign = if value.negative() {
        "-"@
    } else {
        Seq::<char>::empty()
    };
    assert(signed =~= old(out)@ + sign);
    if !value.is_finite() {
        out.append("inf");
        assert(out@ =~= old(out)@ + (sign + "inf"@));
        return ;
    }
    let ten: u64 = power_of_ten(places);
    let counted = count(value.magnitude(), ten);
    let ghost n = last_places(value, places as nat);
    match counted {
        Counted::Units(count) => {
            text::push_numeral(out, count / (ten as u128));
            out.append(".");
            text::push_padded(out, count % (ten as u128), places);
        },
        Counted::Whole(q, s) => {
            proof {
                let whole = q * pow2(s as nat);
                lemma_pow2_pos(s as nat);
                assert(whole >= 0) by (nonlinear_arith)
                    requires
                        whole == q * pow2(s as nat),
                ;
                vstd::arithmetic::div_mod::lemma_fundamental_div_mod_converse(
                    n,
                    ten as int,
                    whole,
                    0,
                );
            }
            push_doubled(out, q, s);
            out.append(".");
            text::push_padded(out, 0, places);
        },
    }
    assert(out@ =~= old(out)@ + (sign + pointed(n, places as nat)));
}

/// A value with a fixed number of decimal places.
pub fn fixed_text(value: Binary64, places: u32) -> (r: String)
    requires
        0 < places <= 14,
    ensures
        r@ == fixed(value, places as nat),
{
    let mut out: String = String::new();
    push_fixed(&mut out, value, places);
    assert(out@ =~= fixed(value, places as nat));
    out
}

} // verus!
